//! The reverse control-flow graph of a body, rooted at a virtual exit node.
//!
//! Its nodes are the blocks of the body and one more node, the virtual exit,
//! numbered after them. The virtual exit leads to every real exit (a block
//! with no successors); every other node leads to its predecessors in the
//! body. Dominators of this graph are the post-dominators of the body.

use vstd::prelude::*;
use crate::mir::Body;
use crate::graph::{adj_view, adj_wf};
use crate::dominators::Dominators;

verus! {

/// The number of times `x` occurs in `q`.
pub open spec fn count_occ(q: Seq<usize>, x: usize) -> nat
    decreases q.len(),
{
    if q.len() == 0 {
        0
    } else {
        count_occ(q.drop_last(), x) + if q.last() == x {
            1nat
        } else {
            0nat
        }
    }
}

/// The predecessors of `s` among the first `k` blocks: each block `p`, in
/// order, as many times as `s` is among its successors.
pub open spec fn preds_upto(body: Body, s: usize, k: int) -> Seq<usize>
    decreases k,
{
    if k <= 0 {
        seq![]
    } else {
        preds_upto(body, s, k - 1) + Seq::new(
            count_occ(body.succs(k - 1), s),
            |_i: int| (k - 1) as usize,
        )
    }
}

/// The predecessors of block `s` in the body.
pub open spec fn cfg_predecessors(body: Body, s: usize) -> Seq<usize> {
    preds_upto(body, s, body.basic_blocks@.len() as int)
}

/// The blocks without successors among the first `k`, in order.
pub open spec fn exits_upto(body: Body, k: int) -> Seq<usize>
    decreases k,
{
    if k <= 0 {
        seq![]
    } else if body.succs(k - 1).len() == 0 {
        exits_upto(body, k - 1).push((k - 1) as usize)
    } else {
        exits_upto(body, k - 1)
    }
}

/// The blocks without successors: returns, unreachable code, resumption of
/// unwinding, and calls that never return nor unwind into another block.
pub open spec fn real_exits(body: Body) -> Seq<usize> {
    exits_upto(body, body.basic_blocks@.len() as int)
}

/// The successors of node `v` in the reverse graph.
pub open spec fn pd_successors(body: Body, v: usize) -> Seq<usize> {
    if v == body.basic_blocks@.len() {
        real_exits(body)
    } else {
        cfg_predecessors(body, v)
    }
}

/// The predecessors of block `v` in the reverse graph.
pub open spec fn pd_predecessors(body: Body, v: usize) -> Seq<usize> {
    if real_exits(body).contains(v) {
        seq![body.basic_blocks@.len() as usize] + body.succs(v as int)
    } else {
        body.succs(v as int)
    }
}

/// The whole reverse graph as adjacency lists.
pub open spec fn post_dom_adj(body: Body) -> Seq<Seq<usize>> {
    Seq::new(body.basic_blocks@.len() + 1, |v: int| pd_successors(body, v as usize))
}

proof fn lemma_preds_below(body: Body, s: usize, k: int)
    requires
        k <= body.basic_blocks@.len(),
    ensures
        forall|i: int|
            0 <= i < preds_upto(body, s, k).len() ==> #[trigger] preds_upto(body, s, k)[i] < k,
    decreases k,
{
    if k > 0 {
        lemma_preds_below(body, s, k - 1);
        let a = preds_upto(body, s, k - 1);
        let c = Seq::new(count_occ(body.succs(k - 1), s), |_i: int| (k - 1) as usize);
        assert forall|i: int| 0 <= i < (a + c).len() implies #[trigger] (a + c)[i] < k by {
            if i < a.len() {
                assert((a + c)[i] == a[i]);
            } else {
                assert((a + c)[i] == c[i - a.len()]);
            }
        }
    }
}

proof fn lemma_exits_below(body: Body, k: int)
    requires
        body.wf(),
        k <= body.basic_blocks@.len(),
    ensures
        forall|i: int| 0 <= i < exits_upto(body, k).len() ==> #[trigger] exits_upto(body, k)[i] < k,
        forall|b: usize|
            b < k ==> (exits_upto(body, k).contains(b) <==> body.succs(b as int).len() == 0),
    decreases k,
{
    if k > 0 {
        lemma_exits_below(body, k - 1);
        let a = exits_upto(body, k - 1);
        let last = (k - 1) as usize;
        assert forall|b: usize| b < k implies (exits_upto(body, k).contains(b) <==> body.succs(
            b as int,
        ).len() == 0) by {
            if body.succs(k - 1).len() == 0 {
                let ap = a.push(last);
                assert(exits_upto(body, k) == ap);
                if b < last && ap.contains(b) {
                    let j = choose|j: int| 0 <= j < ap.len() && #[trigger] ap[j] == b;
                    if j < a.len() {
                        assert(a[j] == b);
                        assert(a.contains(b));
                    }
                }
                if b < last && a.contains(b) {
                    let j = choose|j: int| 0 <= j < a.len() && #[trigger] a[j] == b;
                    assert(ap[j] == b);
                }
                if b == last {
                    assert(ap[a.len() as int] == b);
                }
            } else {
                assert(exits_upto(body, k) == a);
                if b == last && a.contains(b) {
                    let j = choose|j: int| 0 <= j < a.len() && #[trigger] a[j] == b;
                    assert(a[j] < k - 1);
                }
            }
        }
        assert forall|i: int| 0 <= i < exits_upto(body, k).len() implies #[trigger] exits_upto(
            body,
            k,
        )[i] < k by {
            if body.succs(k - 1).len() == 0 {
                if i < a.len() {
                    assert(exits_upto(body, k)[i] == a[i]);
                }
            }
        }
    }
}

proof fn lemma_count_occ_contains(q: Seq<usize>, x: usize)
    ensures
        (count_occ(q, x) > 0) == q.contains(x),
    decreases q.len(),
{
    if q.len() > 0 {
        lemma_count_occ_contains(q.drop_last(), x);
        if q.drop_last().contains(x) {
            let j = choose|j: int| 0 <= j < q.drop_last().len() && q.drop_last()[j] == x;
            assert(q[j] == x);
        }
        if q.contains(x) && q.last() != x {
            let j = choose|j: int| 0 <= j < q.len() && q[j] == x;
            assert(q.drop_last()[j] == x);
        }
    }
}

proof fn lemma_preds_upto_contains(body: Body, x: usize, c: usize, k: int)
    requires
        0 <= k <= usize::MAX,
    ensures
        preds_upto(body, x, k).contains(c) == (c < k && body.succs(c as int).contains(x)),
    decreases k,
{
    if k > 0 {
        lemma_preds_upto_contains(body, x, c, k - 1);
        let a = preds_upto(body, x, k - 1);
        let cnt = count_occ(body.succs(k - 1), x);
        let r = Seq::new(cnt, |_i: int| (k - 1) as usize);
        assert(preds_upto(body, x, k) == a + r);
        lemma_count_occ_contains(body.succs(k - 1), x);
        if (a + r).contains(c) {
            let j = choose|j: int| 0 <= j < (a + r).len() && (a + r)[j] == c;
            if j < a.len() {
                assert(a[j] == c);
                assert(a.contains(c));
            } else {
                assert(r[j - a.len()] == c);
                assert(c as int == k - 1);
                assert(cnt > 0);
            }
            assert(c < k && body.succs(c as int).contains(x));
        }
        if c < k && body.succs(c as int).contains(x) {
            if c < k - 1 {
                assert(a.contains(c));
                let j = choose|j: int| 0 <= j < a.len() && a[j] == c;
                assert((a + r)[j] == c);
            } else {
                assert(c as int == k - 1);
                assert(cnt > 0);
                assert((a + r)[a.len() as int] == c);
            }
            assert((a + r).contains(c));
        }
    }
}

/// Block `c` is a predecessor of block `x` exactly when `x` is a successor
/// of `c`.
pub proof fn lemma_predecessor_iff_successor(body: Body, x: usize, c: usize)
    requires
        body.wf(),
        c < body.basic_blocks@.len(),
    ensures
        cfg_predecessors(body, x).contains(c) == body.succs(c as int).contains(x),
{
    lemma_preds_upto_contains(body, x, c, body.basic_blocks@.len() as int);
}

/// The predecessors of a block are blocks.
pub proof fn lemma_predecessors_are_blocks(body: Body, x: usize, k: int)
    requires
        body.wf(),
        x < body.basic_blocks@.len(),
        0 <= k < cfg_predecessors(body, x).len(),
    ensures
        cfg_predecessors(body, x)[k] < body.basic_blocks@.len(),
{
    lemma_preds_below(body, x, body.basic_blocks@.len() as int);
}

/// The real exits are blocks.
pub proof fn lemma_real_exits_are_blocks(body: Body, k: int)
    requires
        body.wf(),
        0 <= k < real_exits(body).len(),
    ensures
        real_exits(body)[k] < body.basic_blocks@.len(),
{
    lemma_exits_below(body, body.basic_blocks@.len() as int);
}

/// A block is a real exit exactly when it has no successors.
pub proof fn lemma_real_exit_iff_no_successors(body: Body, c: usize)
    requires
        body.wf(),
        c < body.basic_blocks@.len(),
    ensures
        real_exits(body).contains(c) == (body.succs(c as int).len() == 0),
{
    lemma_exits_below(body, body.basic_blocks@.len() as int);
}

/// Every edge of the reverse graph of a well-formed body leads to a node.
pub proof fn lemma_post_dom_adj_wf(body: Body)
    requires
        body.wf(),
    ensures
        adj_wf(post_dom_adj(body)),
{
    let n = body.basic_blocks@.len() as int;
    let g = post_dom_adj(body);
    assert forall|u: int, i: int| 0 <= u < g.len() && 0 <= i < g[u].len() implies #[trigger] g[u][i]
        < g.len() by {
        if u == n {
            lemma_exits_below(body, n);
        } else {
            lemma_preds_below(body, u as usize, n);
        }
    }
}

/// The reverse graph of `body` with its virtual exit.
pub struct PostDomGraph<'a> {
    body: &'a Body,
    virtual_exit: usize,
    real_exits: Vec<usize>,
}

impl<'a> PostDomGraph<'a> {
    pub closed spec fn body(&self) -> Body {
        *self.body
    }

    #[verifier::type_invariant]
    closed spec fn inv(&self) -> bool {
        &&& self.body.wf()
        &&& self.virtual_exit == self.body.basic_blocks@.len()
        &&& self.real_exits@ == real_exits(*self.body)
    }

    pub fn new(body: &'a Body) -> (res: Self)
        requires
            body.wf(),
        ensures
            res.body() == *body,
    {
        let n = body.basic_blocks.len();
        let mut real_exits: Vec<usize> = Vec::new();
        let mut b: usize = 0;
        while b < n
            invariant
                n == body.basic_blocks@.len(),
                b <= n,
                real_exits@ == exits_upto(*body, b as int),
            decreases n - b,
        {
            let succs = body.basic_blocks[b].terminator.successors();
            if succs.len() == 0 {
                real_exits.push(b);
            }
            b = b + 1;
        }
        PostDomGraph { body, virtual_exit: n, real_exits }
    }

    pub fn num_nodes(&self) -> (res: usize)
        ensures
            res == self.body().basic_blocks@.len() + 1,
    {
        proof {
            use_type_invariant(self);
        }
        self.body.basic_blocks.len() + 1
    }

    /// The virtual exit.
    pub fn start_node(&self) -> (res: usize)
        ensures
            res == self.body().basic_blocks@.len(),
    {
        proof {
            use_type_invariant(self);
        }
        self.virtual_exit
    }

    pub fn successors(&self, node: usize) -> (res: Vec<usize>)
        requires
            node <= self.body().basic_blocks@.len(),
        ensures
            res@ == pd_successors(self.body(), node),
    {
        proof {
            use_type_invariant(self);
        }
        if node == self.virtual_exit {
            return self.real_exits.clone();
        }
        cfg_predecessors_of(self.body, node)
    }

    /// The predecessors of a block (the virtual exit has none to ask for).
    pub fn predecessors(&self, node: usize) -> (res: Vec<usize>)
        requires
            node < self.body().basic_blocks@.len(),
        ensures
            res@ == pd_predecessors(self.body(), node),
    {
        proof {
            use_type_invariant(self);
        }
        let succs = self.body.basic_blocks[node].terminator.successors();
        let mut is_exit = false;
        let mut i: usize = 0;
        while i < self.real_exits.len()
            invariant
                i <= self.real_exits@.len(),
                is_exit == exists|j: int| 0 <= j < i && self.real_exits@[j] == node,
            decreases self.real_exits@.len() - i,
        {
            if self.real_exits[i] == node {
                is_exit = true;
            }
            i = i + 1;
        }
        if is_exit {
            let mut res: Vec<usize> = Vec::new();
            res.push(self.virtual_exit);
            let mut j: usize = 0;
            while j < succs.len()
                invariant
                    j <= succs@.len(),
                    res@ == seq![self.virtual_exit] + succs@.take(j as int),
                decreases succs@.len() - j,
            {
                res.push(succs[j]);
                j = j + 1;
                assert(res@ == seq![self.virtual_exit] + succs@.take(j as int));
            }
            assert(succs@.take(succs@.len() as int) == succs@);
            res
        } else {
            succs
        }
    }
}

/// The predecessors of block `s`, in the order of the blocks.
pub fn cfg_predecessors_of(body: &Body, s: usize) -> (res: Vec<usize>)
    requires
        body.wf(),
    ensures
        res@ == cfg_predecessors(*body, s),
{
    let n = body.basic_blocks.len();
    let mut res: Vec<usize> = Vec::new();
    let mut p: usize = 0;
    while p < n
        invariant
            n == body.basic_blocks@.len(),
            p <= n,
            res@ == preds_upto(*body, s, p as int),
        decreases n - p,
    {
        let succs = body.basic_blocks[p].terminator.successors();
        let ghost base = res@;
        let mut i: usize = 0;
        while i < succs.len()
            invariant
                i <= succs@.len(),
                succs@ == body.succs(p as int),
                res@ == base + Seq::new(
                    count_occ(succs@.take(i as int), s),
                    |_k: int| p,
                ),
            decreases succs@.len() - i,
        {
            proof {
                assert(succs@.take(i as int + 1).drop_last() == succs@.take(i as int));
            }
            if succs[i] == s {
                res.push(p);
            }
            i = i + 1;
            assert(res@ == base + Seq::new(count_occ(succs@.take(i as int), s), |_k: int| p));
        }
        assert(succs@.take(succs@.len() as int) == succs@);
        p = p + 1;
    }
    res
}

/// The post-dominator tree of the body behind `graph`.
pub fn dominators(graph: &PostDomGraph) -> (res: Dominators)
    ensures
        res.graph() == post_dom_adj(graph.body()),
        res.start() == graph.body().basic_blocks@.len(),
{
    proof {
        use_type_invariant(graph);
    }
    let n = graph.num_nodes();
    let mut adj: Vec<Vec<usize>> = Vec::new();
    let mut v: usize = 0;
    while v < n
        invariant
            n == graph.body().basic_blocks@.len() + 1,
            v <= n,
            adj@.len() == v,
            forall|u: int| 0 <= u < v ==> (#[trigger] adj@[u])@ == pd_successors(
                graph.body(),
                u as usize,
            ),
        decreases n - v,
    {
        let succ = graph.successors(v);
        adj.push(succ);
        v = v + 1;
    }
    proof {
        assert(adj_view(adj) =~= post_dom_adj(graph.body()));
        lemma_post_dom_adj_wf(graph.body());
    }
    Dominators::compute(&adj, graph.start_node())
}

/// In the reverse graph, every block that a block's terminator names, the
/// cleanup block it unwinds to included, leads back to that block: unwinding
/// paths count when post-dominators are computed.
pub proof fn lemma_named_blocks_lead_back(body: Body, b: usize, x: usize)
    requires
        body.wf(),
        b < body.basic_blocks@.len(),
        crate::mir::names_block(body.basic_blocks@[b as int].terminator, x),
    ensures
        x < body.basic_blocks@.len(),
        post_dom_adj(body)[x as int].contains(b),
{
    let t = body.basic_blocks@[b as int].terminator;
    crate::mir::lemma_successors_are_named_blocks(t, x);
    let k = choose|k: int| 0 <= k < t.spec_successors().len() && t.spec_successors()[k] == x;
    assert(crate::mir::block_wf(
        body.basic_blocks@[b as int],
        body.local_count as nat,
        body.basic_blocks@.len(),
    ));
    assert(x < body.basic_blocks@.len());
    lemma_predecessor_iff_successor(body, x, b);
    assert(body.succs(b as int).contains(x));
}

} // verus!
