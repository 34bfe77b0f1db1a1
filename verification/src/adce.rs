//! Aggressive dead code elimination.
//!
//! Phase 2 (value deadness) turns into no-ops the assignments `_l = use`
//! whose local is not live afterwards. Phase 1 (control-flow deadness)
//! collapses a `SwitchInt` into a `Goto` to its immediate post-dominator when every
//! block control dependent on it is a `Goto` block holding nothing but no-ops,
//! storage markers and such dead assignments, and no successor leads back to
//! it: loops are left alone.

use vstd::prelude::*;
use crate::mir::{
    block_wf, statement_wf, terminator_wf, Body, PlaceElem, Rvalue, Statement, TerminatorKind,
};
use crate::graph::{
    adj_view, adj_wf, is_walk, lemma_first_occurrence, lemma_last_occurrence, lemma_walk_concat,
    lemma_walk_extend, lemma_reaches_extend, lemma_reaches_transitive, lemma_walk_single,
    lemma_walk_prefix, lemma_walk_suffix, lemma_walk_unrestricted, reach_avoiding, reaches, step,
};
use crate::liveness::{
    apply_statement, borrowed_locals, borrowed_set, compute_liveness, debug_set, debuginfo_locals,
    is_least_live_fixpoint, lemma_least_fixpoint_unique, live_after_statement,
    live_after_terminator, live_at_block_end, live_before, rows_fit, set_of, sets_of,
    statement_transfer,
};
use crate::post_dom::{
    dominators, lemma_post_dom_adj_wf, lemma_predecessor_iff_successor,
    lemma_real_exit_iff_no_successors, post_dom_adj, PostDomGraph,
};
use crate::dominators::{
    dom_rank, dominates, immediate_dominator_of, is_idom, lemma_dominates_reflexive,
    lemma_dominates_transitive, lemma_dominator_reachable, lemma_idom_exists, lemma_idom_rank,
    lemma_idom_unique, lemma_immediate_dominator_of, lemma_start_dominates,
    lemma_walk_ends_in_graph, lemma_walk_visits_dominator, reachable, strictly_dominates,
    Dominators,
};

verus! {

/// A boolean mask per block and statement, as sequences.
pub open spec fn mask_view(m: Vec<Vec<bool>>) -> Seq<Seq<bool>> {
    Seq::new(m@.len(), |i: int| m@[i]@)
}

/// The mask has one entry per statement of each block of `body`.
pub open spec fn mask_fits(m: Seq<Seq<bool>>, body: Body) -> bool {
    &&& m.len() == body.basic_blocks@.len()
    &&& forall|b: int|
        0 <= b < m.len() ==> #[trigger] m[b].len() == body.basic_blocks@[b].statements@.len()
}

/// The terminators of the blocks of `body`.
pub open spec fn terminators(body: Body) -> Seq<TerminatorKind> {
    Seq::new(body.basic_blocks@.len(), |b: int| body.basic_blocks@[b].terminator)
}

/// The blocks control dependent on `branch` along the edge to `cur`: `cur`
/// and its chain of immediate post-dominators, up to (and without) the first
/// one that post-dominates `branch`. `None` when the chain meets a node from
/// which no exit can be reached.
pub open spec fn control_dependent_blocks(
    g: Seq<Seq<usize>>,
    s: usize,
    branch: usize,
    cur: usize,
) -> Option<Seq<usize>>
    decreases dom_rank(g, s, cur),
{
    if !reachable(g, s, cur) {
        None
    } else if dominates(g, s, cur, branch) {
        Some(seq![])
    } else {
        match immediate_dominator_of(g, s, cur) {
            Some(next) => {
                proof {
                    lemma_immediate_dominator_of(g, s, cur);
                    lemma_idom_rank(g, s, cur, next);
                }
                match control_dependent_blocks(g, s, branch, next) {
                    Some(rest) => Some(seq![cur] + rest),
                    None => None,
                }
            },
            None => Some(seq![cur]),
        }
    }
}

/// A statement that does nothing observable, given whether it is a dead
/// assignment.
pub open spec fn statement_inert(st: Statement, dead: bool) -> bool {
    match st {
        Statement::Nop => true,
        Statement::StorageLive(_) => true,
        Statement::StorageDead(_) => true,
        Statement::Assign(_, _) => dead,
        _ => false,
    }
}

/// Block `b` ends in a `Goto` and its statements do nothing observable.
pub open spec fn block_inert(
    body: Body,
    terms: Seq<TerminatorKind>,
    b: usize,
    dead: Seq<Seq<bool>>,
) -> bool {
    &&& terms[b as int] is Goto
    &&& forall|i: int|
        0 <= i < body.basic_blocks@[b as int].statements@.len() ==> #[trigger] statement_inert(
            body.basic_blocks@[b as int].statements@[i],
            dead[b as int][i],
        )
}

/// The branch at `branch` is a `SwitchInt` with more than one successor
/// that can reach an exit, and along every successor no path leads back to
/// the branch and the control dependent blocks are inert. A terminator with
/// an effect of its own (a call, a drop, an assert, inline assembly) is never
/// a dead branch, and neither is a branch that closes a loop.
pub open spec fn branch_dead(
    body: Body,
    terms: Seq<TerminatorKind>,
    g: Seq<Seq<usize>>,
    s: usize,
    dead: Seq<Seq<bool>>,
    branch: usize,
) -> bool {
    let succs = terms[branch as int].spec_successors();
    &&& terms[branch as int] is SwitchInt
    &&& succs.len() > 1
    &&& reachable(g, s, branch)
    &&& forall|j: int|
        0 <= j < succs.len() ==> #[trigger] edge_dead(body, terms, g, s, dead, branch, succs[j])
}

/// The control-flow graph given by the terminators `t`, as adjacency lists.
pub open spec fn terms_adj(t: Seq<TerminatorKind>) -> Seq<Seq<usize>> {
    Seq::new(t.len(), |b: int| t[b].spec_successors())
}

/// No path of the control-flow graph leads from `succ` back to `branch`, and
/// every block control dependent on `branch` along its edge to `succ` is inert.
pub open spec fn edge_dead(
    body: Body,
    terms: Seq<TerminatorKind>,
    g: Seq<Seq<usize>>,
    s: usize,
    dead: Seq<Seq<bool>>,
    branch: usize,
    succ: usize,
) -> bool {
    &&& !reaches(terms_adj(terms), succ, branch, terms.len() as int)
    &&& match control_dependent_blocks(g, s, branch, succ) {
        Some(deps) => forall|k: int|
            0 <= k < deps.len() ==> block_inert(body, terms, #[trigger] deps[k], dead),
        None => false,
    }
}

/// The terminators once the branches among the first `k` blocks have been
/// considered in order, each collapsed into a `Goto` to its immediate
/// post-dominator when it is dead and both blocks agree on being cleanup
/// blocks. (That post-dominator is then always a block:
/// `lemma_dead_branch_merge_is_block`.)
pub open spec fn collapsed_terminators(
    body: Body,
    g: Seq<Seq<usize>>,
    s: usize,
    dead: Seq<Seq<bool>>,
    k: int,
) -> Seq<TerminatorKind>
    decreases k,
{
    if k <= 0 {
        terminators(body)
    } else {
        let t = collapsed_terminators(body, g, s, dead, k - 1);
        let bb = (k - 1) as usize;
        if branch_dead(body, t, g, s, dead, bb) {
            match immediate_dominator_of(g, s, bb) {
                Some(merge) => if body.basic_blocks@[bb as int].is_cleanup
                    == body.basic_blocks@[merge as int].is_cleanup {
                    t.update(bb as int, TerminatorKind::Goto { target: merge })
                } else {
                    t
                },
                None => t,
            }
        } else {
            t
        }
    }
}

/// Only no-ops, storage markers and assignments marked dead are inert: a
/// statement that writes a discriminant, de-initialises a place, or is an
/// assignment not marked dead always counts as doing something.
pub proof fn lemma_inert_statements(st: Statement, dead: bool)
    requires
        statement_inert(st, dead),
    ensures
        st is Nop || st is StorageLive || st is StorageDead || (st is Assign && dead),
        !(st is SetDiscriminant),
        !(st is Deinit),
{
}

/// A branch is dead only when it is a `SwitchInt` and the blocks control
/// dependent on it along each successor are `Goto` blocks holding nothing
/// but no-ops, storage markers and assignments marked dead; in particular
/// none of them writes a discriminant or de-initialises a place.
pub proof fn lemma_dead_branch_arms_do_nothing(
    body: Body,
    terms: Seq<TerminatorKind>,
    g: Seq<Seq<usize>>,
    s: usize,
    dead: Seq<Seq<bool>>,
    branch: usize,
    j: int,
    k: int,
    i: int,
)
    requires
        branch_dead(body, terms, g, s, dead, branch),
        0 <= j < terms[branch as int].spec_successors().len(),
        control_dependent_blocks(g, s, branch, terms[branch as int].spec_successors()[j]) matches Some(
            deps,
        ) && 0 <= k < deps.len() && 0 <= i < body.basic_blocks@[deps[k] as int].statements@.len(),
    ensures
        terms[branch as int] is SwitchInt,
        control_dependent_blocks(g, s, branch, terms[branch as int].spec_successors()[j]) matches Some(
            deps,
        ) && {
            let st = body.basic_blocks@[deps[k] as int].statements@[i];
            &&& terms[deps[k] as int] is Goto
            &&& st is Nop || st is StorageLive || st is StorageDead || (st is Assign
                && dead[deps[k] as int][i])
        },
{
    let succs = terms[branch as int].spec_successors();
    assert(edge_dead(body, terms, g, s, dead, branch, succs[j]));
    let deps = control_dependent_blocks(g, s, branch, succs[j])->0;
    assert(block_inert(body, terms, deps[k], dead));
    let st = body.basic_blocks@[deps[k] as int].statements@[i];
    assert(statement_inert(st, dead[deps[k] as int][i]));
    lemma_inert_statements(st, dead[deps[k] as int][i]);
}

/// `o` with `pre` put in front of the sequence it holds.
pub open spec fn prepend(pre: Seq<usize>, o: Option<Seq<usize>>) -> Option<Seq<usize>> {
    match o {
        Some(r) => Some(pre + r),
        None => None,
    }
}

/// The blocks control dependent on `branch_block` along its edge to
/// `successor`, walking up the post-dominator tree. `None` when the walk
/// meets a node from which no exit can be reached, `successor` first.
pub fn find_control_dependent_blocks(
    branch_block: usize,
    successor: usize,
    post_doms: &Dominators,
) -> (res: Option<Vec<usize>>)
    requires
        branch_block < post_doms.graph().len(),
        successor < post_doms.graph().len(),
        reachable(post_doms.graph(), post_doms.start(), branch_block) || !reachable(
            post_doms.graph(),
            post_doms.start(),
            successor,
        ),
    ensures
        match res {
            Some(v) => control_dependent_blocks(
                post_doms.graph(),
                post_doms.start(),
                branch_block,
                successor,
            ) == Some(v@),
            None => control_dependent_blocks(
                post_doms.graph(),
                post_doms.start(),
                branch_block,
                successor,
            ) is None,
        },
{
    let ghost g = post_doms.graph();
    let ghost s = post_doms.start();
    let mut result: Vec<usize> = Vec::new();
    let mut current = successor;
    loop
        invariant
            g == post_doms.graph(),
            s == post_doms.start(),
            branch_block < g.len(),
            current < g.len(),
            reachable(g, s, branch_block) || !reachable(g, s, current),
            control_dependent_blocks(g, s, branch_block, successor) == prepend(
                result@,
                control_dependent_blocks(g, s, branch_block, current),
            ),
        decreases dom_rank(g, s, current),
    {
        if !post_doms.is_reachable(current) {
            return None;
        }
        if post_doms.dominates(current, branch_block) {
            assert(result@ + seq![] == result@);
            return Some(result);
        }
        let ghost before = result@;
        result.push(current);
        match post_doms.immediate_dominator(current) {
            Some(next) => {
                proof {
                    lemma_immediate_dominator_of(g, s, current);
                    lemma_idom_rank(g, s, current, next);
                    match control_dependent_blocks(g, s, branch_block, next) {
                        Some(rest) => {
                            assert(before + (seq![current] + rest) == result@ + rest);
                        },
                        None => {},
                    }
                }
                current = next;
            },
            None => {
                assert(before + seq![current] == result@);
                return Some(result);
            },
        }
    }
}

/// Whether block `bb` ends in a `Goto` and holds only no-ops, storage markers
/// and dead assignments.
fn block_is_inert(body: &Body, bb: usize, dead: &Vec<Vec<bool>>) -> (res: bool)
    requires
        bb < body.basic_blocks@.len(),
        mask_fits(mask_view(*dead), *body),
    ensures
        res == block_inert(*body, terminators(*body), bb, mask_view(*dead)),
{
    let data = &body.basic_blocks[bb];
    if !data.terminator.is_goto() {
        return false;
    }
    let row = &dead[bb];
    assert(row@ == mask_view(*dead)[bb as int]);
    let mut statement_index: usize = 0;
    while statement_index < data.statements.len()
        invariant
            bb < body.basic_blocks@.len(),
            mask_fits(mask_view(*dead), *body),
            data == body.basic_blocks@[bb as int],
            row@ == mask_view(*dead)[bb as int],
            row@.len() == data.statements@.len(),
            statement_index <= data.statements@.len(),
            forall|i: int|
                0 <= i < statement_index ==> #[trigger] statement_inert(
                    data.statements@[i],
                    row@[i],
                ),
        decreases data.statements@.len() - statement_index,
    {
        let ok = match &data.statements[statement_index] {
            Statement::Nop => true,
            Statement::StorageLive(_) => true,
            Statement::StorageDead(_) => true,
            Statement::Assign(_, _) => row[statement_index],
            _ => false,
        };
        if !ok {
            assert(!statement_inert(
                data.statements@[statement_index as int],
                row@[statement_index as int],
            ));
            return false;
        }
        statement_index = statement_index + 1;
    }
    true
}

/// Whether the branch at `branch_block` can be collapsed: it is a
/// `SwitchInt` with several successors, it can reach an exit, none of its
/// successors leads back to it (loops are left alone), and all the blocks
/// control dependent on it are inert.
pub fn branch_is_dead(
    body: &Body,
    branch_block: usize,
    post_doms: &Dominators,
    dead: &Vec<Vec<bool>>,
) -> (res: bool)
    requires
        body.wf(),
        branch_block < body.basic_blocks@.len(),
        post_doms.graph().len() == body.basic_blocks@.len() + 1,
        post_doms.start() == body.basic_blocks@.len(),
        mask_fits(mask_view(*dead), *body),
    ensures
        res == branch_dead(
            *body,
            terminators(*body),
            post_doms.graph(),
            post_doms.start(),
            mask_view(*dead),
            branch_block,
        ),
{
    let ghost g = post_doms.graph();
    let ghost s = post_doms.start();
    let ghost terms = terminators(*body);
    let successors = body.basic_blocks[branch_block].terminator.successors();
    assert(successors@ == terms[branch_block as int].spec_successors());
    if !body.basic_blocks[branch_block].terminator.is_switch_int() {
        return false;
    }
    if successors.len() <= 1 {
        return false;
    }
    if !post_doms.is_reachable(branch_block) {
        return false;
    }
    let n = body.basic_blocks.len();
    let adj = cfg_successors(body);
    assert(adj_view(adj) =~= terms_adj(terms));
    let mut j: usize = 0;
    while j < successors.len()
        invariant
            body.wf(),
            terms[branch_block as int] is SwitchInt,
            n == body.basic_blocks@.len(),
            adj_view(adj) == terms_adj(terms),
            adj_wf(adj_view(adj)),
            adj@.len() == n,
            g == post_doms.graph(),
            s == post_doms.start(),
            terms == terminators(*body),
            g.len() == body.basic_blocks@.len() + 1,
            s == body.basic_blocks@.len(),
            branch_block < body.basic_blocks@.len(),
            reachable(g, s, branch_block),
            mask_fits(mask_view(*dead), *body),
            successors@ == terms[branch_block as int].spec_successors(),
            j <= successors@.len(),
            forall|i: int|
                0 <= i < j ==> #[trigger] edge_dead(
                    *body,
                    terms,
                    g,
                    s,
                    mask_view(*dead),
                    branch_block,
                    successors@[i],
                ),
        decreases successors@.len() - j,
    {
        let successor = successors[j];
        assert(crate::mir::terminator_wf(
            body.basic_blocks@[branch_block as int].terminator,
            body.local_count as nat,
            body.basic_blocks@.len(),
        ));
        assert(successors@[j as int] < body.basic_blocks@.len());
        let back = reach_avoiding(&adj, successor, n);
        if back[branch_block] {
            proof {
                let succs = terms[branch_block as int].spec_successors();
                assert(succs[j as int] == successor);
                assert(!edge_dead(*body, terms, g, s, mask_view(*dead), branch_block, succs[j as int]));
            }
            return false;
        }
        let dependent = find_control_dependent_blocks(branch_block, successor, post_doms);
        match dependent {
            None => {
                proof {
                    let succs = terms[branch_block as int].spec_successors();
                    assert(succs[j as int] == successor);
                    assert(!edge_dead(*body, terms, g, s, mask_view(*dead), branch_block, succs[j as int]));
                }
                return false;
            },
            Some(dependent) => {
                let mut k: usize = 0;
                while k < dependent.len()
                    invariant
                        body.wf(),
                        g == post_doms.graph(),
                        s == post_doms.start(),
                        !reaches(terms_adj(terms), successor, branch_block, terms.len() as int),
                        g.len() == body.basic_blocks@.len() + 1,
                        s == body.basic_blocks@.len(),
                        mask_fits(mask_view(*dead), *body),
                        terms == terminators(*body),
                        control_dependent_blocks(g, s, branch_block, successor) == Some(
                            dependent@,
                        ),
                        successor < g.len(),
                        reachable(g, s, branch_block),
                        branch_block < body.basic_blocks@.len(),
                        j < successors@.len(),
                        successors@ == terms[branch_block as int].spec_successors(),
                        successor == successors@[j as int],
                        k <= dependent@.len(),
                        forall|i: int|
                            0 <= i < k ==> block_inert(
                                *body,
                                terms,
                                #[trigger] dependent@[i],
                                mask_view(*dead),
                            ),
                    decreases dependent@.len() - k,
                {
                    let bb = dependent[k];
                    proof {
                        let deps = dependent@;
                        lemma_dependents_are_blocks(g, s, branch_block, successor, deps);
                        assert(control_dependent_blocks(g, s, branch_block, successor) == Some(deps));
                        assert(deps[k as int] < s);
                    }
                    if !block_is_inert(body, bb, dead) {
                        proof {
                            let succs = terms[branch_block as int].spec_successors();
                            assert(succs[j as int] == successor);
                            assert(!block_inert(*body, terms, dependent@[k as int], mask_view(*dead)));
                            assert(control_dependent_blocks(g, s, branch_block, succs[j as int])
                                == Some(dependent@));
                            lemma_not_dead_witness(
                                *body,
                                terms,
                                g,
                                s,
                                mask_view(*dead),
                                branch_block,
                                j as int,
                                dependent@,
                                k as int,
                            );
                        }
                        return false;
                    }
                    k = k + 1;
                }
                assert(edge_dead(*body, terms, g, s, mask_view(*dead), branch_block, successor));
            },
        }
        j = j + 1;
    }
    true
}

/// Two bodies whose blocks hold the same statements.
pub open spec fn same_statements(b1: Body, b2: Body) -> bool {
    &&& b1.basic_blocks@.len() == b2.basic_blocks@.len()
    &&& forall|b: int|
        0 <= b < b1.basic_blocks@.len() ==> (#[trigger] b1.basic_blocks@[b]).statements@
            == b2.basic_blocks@[b].statements@
}

/// Whether a branch is dead depends on the statements of the body only
/// through the statements, which the two bodies share.
proof fn lemma_branch_dead_same_statements(
    b1: Body,
    b2: Body,
    terms: Seq<TerminatorKind>,
    g: Seq<Seq<usize>>,
    s: usize,
    dead: Seq<Seq<bool>>,
    branch: usize,
)
    requires
        same_statements(b1, b2),
        s == g.len() - 1,
        g.len() == b1.basic_blocks@.len() + 1,
    ensures
        branch_dead(b1, terms, g, s, dead, branch) == branch_dead(b2, terms, g, s, dead, branch),
{
    let succs = terms[branch as int].spec_successors();
    if reachable(g, s, branch) {
        assert forall|j: int| 0 <= j < succs.len() implies #[trigger] edge_dead(
            b1,
            terms,
            g,
            s,
            dead,
            branch,
            succs[j],
        ) == edge_dead(b2, terms, g, s, dead, branch, succs[j]) by {
            match control_dependent_blocks(g, s, branch, succs[j]) {
                Some(deps) => {
                    lemma_dependents_are_blocks(g, s, branch, succs[j], deps);
                    assert forall|k: int| 0 <= k < deps.len() implies block_inert(
                        b1,
                        terms,
                        #[trigger] deps[k],
                        dead,
                    ) == block_inert(b2, terms, deps[k], dead) by {
                        assert(b1.basic_blocks@[deps[k] as int].statements@
                            == b2.basic_blocks@[deps[k] as int].statements@);
                    }
                },
                None => {},
            }
        }
        if branch_dead(b1, terms, g, s, dead, branch) {
            assert forall|j: int| 0 <= j < succs.len() implies #[trigger] edge_dead(
                b2,
                terms,
                g,
                s,
                dead,
                branch,
                succs[j],
            ) by {
                assert(edge_dead(b1, terms, g, s, dead, branch, succs[j]));
            }
        }
        if branch_dead(b2, terms, g, s, dead, branch) {
            assert forall|j: int| 0 <= j < succs.len() implies #[trigger] edge_dead(
                b1,
                terms,
                g,
                s,
                dead,
                branch,
                succs[j],
            ) by {
                assert(edge_dead(b2, terms, g, s, dead, branch, succs[j]));
            }
        }
    }
}

/// Collapses, in block order, every dead branch into a `Goto` to its
/// immediate post-dominator, when both agree on being cleanup blocks.
pub fn collapse_dead_branches(body: &mut Body, post_doms: &Dominators, dead: &Vec<Vec<bool>>)
    requires
        old(body).wf(),
        post_doms.graph() == post_dom_adj(*old(body)),
        post_doms.start() == old(body).basic_blocks@.len(),
        mask_fits(mask_view(*dead), *old(body)),
    ensures
        final(body).wf(),
        same_statements(*final(body), *old(body)),
        final(body).local_count == old(body).local_count,
        final(body).debug_locals@ == old(body).debug_locals@,
        forall|b: int|
            0 <= b < final(body).basic_blocks@.len() ==> (#[trigger] final(body).basic_blocks@[b]).is_cleanup
                == old(body).basic_blocks@[b].is_cleanup,
        terminators(*final(body)) == collapsed_terminators(
            *old(body),
            post_doms.graph(),
            post_doms.start(),
            mask_view(*dead),
            old(body).basic_blocks@.len() as int,
        ),
{
    let ghost g = post_doms.graph();
    let ghost s = post_doms.start();
    let ghost mask = mask_view(*dead);
    let ghost original = *body;
    let n = body.basic_blocks.len();
    let mut bb: usize = 0;
    while bb < n
        invariant
            body.wf(),
            n == body.basic_blocks@.len(),
            original == *old(body),
            g == post_doms.graph(),
            g == post_dom_adj(original),
            s == post_doms.start(),
            mask == mask_view(*dead),
            g.len() == n + 1,
            s == n,
            bb <= n,
            original.wf(),
            mask_fits(mask, original),
            same_statements(*body, original),
            body.local_count == original.local_count,
            body.debug_locals@ == original.debug_locals@,
            forall|b: int|
                0 <= b < n ==> (#[trigger] body.basic_blocks@[b]).is_cleanup
                    == original.basic_blocks@[b].is_cleanup,
            terminators(*body) == collapsed_terminators(original, g, s, mask, bb as int),
        decreases n - bb,
    {
        let ghost t = terminators(*body);
        proof {
            lemma_branch_dead_same_statements(*body, original, t, g, s, mask, bb);
            assert(mask_fits(mask, *body));
            lemma_collapsed_terminators_shape(original, mask, bb as int);
        }
        let successors = body.basic_blocks[bb].terminator.successors();
        if successors.len() > 1 && branch_is_dead(body, bb, post_doms, dead) {
            match post_doms.immediate_dominator(bb) {
                Some(merge) => {
                    proof {
                        assert(t[bb as int] == original.basic_blocks@[bb as int].terminator);
                        lemma_dead_branch_merge_is_block(original, t, mask, bb);
                    }
                    if body.basic_blocks[bb].is_cleanup
                        == body.basic_blocks[merge].is_cleanup {
                        let ghost before = *body;
                        body.basic_blocks[bb].terminator = TerminatorKind::Goto { target: merge };
                        proof {
                            assert(terminators(*body) =~= t.update(
                                bb as int,
                                TerminatorKind::Goto { target: merge },
                            ));
                            assert forall|b: int| 0 <= b < n implies block_wf(
                                #[trigger] body.basic_blocks@[b],
                                body.local_count as nat,
                                n as nat,
                            ) by {
                                assert(block_wf(before.basic_blocks@[b], body.local_count as nat, n as nat));
                                if b != bb {
                                    assert(body.basic_blocks@[b] == before.basic_blocks@[b]);
                                } else {
                                    assert(body.basic_blocks@[b].statements@ == before.basic_blocks@[b].statements@);
                                }
                            }
                            assert forall|b: int| 0 <= b < n implies (#[trigger] body.basic_blocks@[
                                b
                            ]).statements@ == original.basic_blocks@[b].statements@ by {
                                assert(before.basic_blocks@[b].statements@
                                    == original.basic_blocks@[b].statements@);
                            }
                            assert forall|b: int| 0 <= b < n implies (#[trigger] body.basic_blocks@[
                                b
                            ]).is_cleanup == original.basic_blocks@[b].is_cleanup by {
                                assert(before.basic_blocks@[b].is_cleanup
                                    == original.basic_blocks@[b].is_cleanup);
                            }
                        }
                    }
                },
                None => {},
            }
        }
        bb = bb + 1;
    }
}

/// One successor along which a control dependent block is not inert makes
/// the branch live.
proof fn lemma_not_dead_witness(
    body: Body,
    terms: Seq<TerminatorKind>,
    g: Seq<Seq<usize>>,
    s: usize,
    dead: Seq<Seq<bool>>,
    branch: usize,
    j: int,
    deps: Seq<usize>,
    k: int,
)
    requires
        0 <= j < terms[branch as int].spec_successors().len(),
        control_dependent_blocks(g, s, branch, terms[branch as int].spec_successors()[j]) == Some(
            deps,
        ),
        0 <= k < deps.len(),
        !block_inert(body, terms, deps[k], dead),
    ensures
        !branch_dead(body, terms, g, s, dead, branch),
{
    let succs = terms[branch as int].spec_successors();
    let cd = control_dependent_blocks(g, s, branch, succs[j]);
    assert(cd == Some(deps));
    assert(cd->0 == deps);
    if edge_dead(body, terms, g, s, dead, branch, succs[j]) {
        assert(forall|kk: int|
            0 <= kk < deps.len() ==> block_inert(body, terms, #[trigger] deps[kk], dead));
        assert(block_inert(body, terms, deps[k], dead));
    }
}

/// The blocks on a control dependence chain are blocks of the body: the
/// virtual exit post-dominates every node, so a chain stops before it.
pub proof fn lemma_dependents_are_blocks(
    g: Seq<Seq<usize>>,
    s: usize,
    branch: usize,
    cur: usize,
    deps: Seq<usize>,
)
    requires
        s == g.len() - 1,
        reachable(g, s, branch),
        control_dependent_blocks(g, s, branch, cur) == Some(deps),
    ensures
        forall|k: int| 0 <= k < deps.len() ==> #[trigger] deps[k] < s,
    decreases dom_rank(g, s, cur),
{
    if reachable(g, s, cur) && !dominates(g, s, cur, branch) {
        lemma_start_dominates(g, s, branch);
        lemma_walk_ends_in_graph(g, s, cur, g.len() as int);
        match immediate_dominator_of(g, s, cur) {
            Some(next) => {
                lemma_immediate_dominator_of(g, s, cur);
                lemma_idom_rank(g, s, cur, next);
                let rest = control_dependent_blocks(g, s, branch, next)->0;
                lemma_dependents_are_blocks(g, s, branch, next, rest);
                assert(deps == seq![cur] + rest);
                assert forall|k: int| 0 <= k < deps.len() implies #[trigger] deps[k] < s by {
                    if k > 0 {
                        assert(deps[k] == rest[k - 1]);
                    }
                }
            },
            None => {},
        }
    }
}


/// The control-flow graph of the body as adjacency lists.
pub open spec fn cfg_adj(body: Body) -> Seq<Seq<usize>> {
    Seq::new(body.basic_blocks@.len(), |b: int| body.succs(b))
}

/// Block `b` can be reached from the entry block.
pub open spec fn entry_reachable(body: Body, b: int) -> bool {
    reaches(cfg_adj(body), 0, b as usize, body.basic_blocks@.len() as int)
}

/// Statement `i` of block `b` is an assignment `_l = use` in a block reached
/// from the entry, where `_l` is a whole local that is neither borrowed nor
/// referred to by debug information, and is not live right after it.
pub open spec fn is_dead_assignment(body: Body, live: Seq<Set<usize>>, b: int, i: int) -> bool {
    let bs = borrowed_set(body);
    let ds = debug_set(body);
    &&& 0 <= b < body.basic_blocks@.len()
    &&& 0 <= i < body.basic_blocks@[b].statements@.len()
    &&& entry_reachable(body, b)
    &&& match body.basic_blocks@[b].statements@[i] {
        Statement::Assign(p, rv) => {
            &&& p.projection@.len() == 0
            &&& !bs.contains(p.local)
            &&& !ds.contains(p.local)
            &&& rv is Use
            &&& !live_after_statement(body, bs, ds, live, b, i).contains(p.local)
        },
        _ => false,
    }
}

/// The entry sets of the least solution of the liveness equations.
pub open spec fn liveness(body: Body) -> Seq<Set<usize>> {
    choose|ins: Seq<Set<usize>>|
        is_least_live_fixpoint(body, borrowed_set(body), debug_set(body), ins)
}

/// Which statements are dead assignments, block by block.
pub open spec fn dead_mask(body: Body) -> Seq<Seq<bool>> {
    Seq::new(
        body.basic_blocks@.len(),
        |b: int|
            Seq::new(
                body.basic_blocks@[b].statements@.len(),
                |i: int| is_dead_assignment(body, liveness(body), b, i),
            ),
    )
}

/// The terminators once the dead branches of `body` are collapsed.
pub open spec fn adce_terminators(body: Body) -> Seq<TerminatorKind> {
    collapsed_terminators(
        body,
        post_dom_adj(body),
        body.basic_blocks@.len() as usize,
        dead_mask(body),
        body.basic_blocks@.len() as int,
    )
}

/// The statements of block `b` once its dead assignments are no-ops.
pub open spec fn adce_statements(body: Body, b: int) -> Seq<Statement> {
    let stmts = body.basic_blocks@[b].statements@;
    Seq::new(
        stmts.len(),
        |i: int|
            if dead_mask(body)[b][i] {
                Statement::Nop
            } else {
                stmts[i]
            },
    )
}

/// The adjacency lists of the control-flow graph.
fn cfg_successors(body: &Body) -> (res: Vec<Vec<usize>>)
    requires
        body.wf(),
    ensures
        adj_view(res) == cfg_adj(*body),
        adj_wf(adj_view(res)),
{
    let n = body.basic_blocks.len();
    let mut res: Vec<Vec<usize>> = Vec::new();
    let mut b: usize = 0;
    while b < n
        invariant
            n == body.basic_blocks@.len(),
            b <= n,
            res@.len() == b,
            forall|c: int| 0 <= c < b ==> (#[trigger] res@[c])@ == body.succs(c),
        decreases n - b,
    {
        res.push(body.basic_blocks[b].terminator.successors());
        b = b + 1;
    }
    assert(adj_view(res) =~= cfg_adj(*body));
    assert forall|u: int, i: int|
        0 <= u < adj_view(res).len() && 0 <= i < adj_view(res)[u].len() implies #[trigger] adj_view(
        res,
    )[u][i] < adj_view(res).len() by {
        assert(block_wf(body.basic_blocks@[u], body.local_count as nat, n as nat));
        assert(terminator_wf(body.basic_blocks@[u].terminator, body.local_count as nat, n as nat));
        assert(body.succs(u)[i] < n);
    }
    res
}

/// Finds the dead assignments of `body` given the locals live on entry to
/// each block, scanning the statements of each block reached from the entry
/// backwards.
pub fn find_dead_assignments(
    body: &Body,
    live: &Vec<Vec<bool>>,
    borrowed: &Vec<bool>,
    debug: &Vec<bool>,
) -> (dead: Vec<Vec<bool>>)
    requires
        body.wf(),
        rows_fit(live@, body.basic_blocks@.len(), body.local_count as nat),
        borrowed@.len() == body.local_count,
        set_of(borrowed@) == borrowed_set(*body),
        debug@.len() == body.local_count,
        set_of(debug@) == debug_set(*body),
    ensures
        mask_fits(mask_view(dead), *body),
        forall|b: int, i: int|
            0 <= b < body.basic_blocks@.len() && 0 <= i < body.basic_blocks@[b].statements@.len()
                ==> mask_view(dead)[b][i] == is_dead_assignment(*body, sets_of(live@), b, i),
{
    let ghost bs = borrowed_set(*body);
    let ghost ds = debug_set(*body);
    let ghost ins = sets_of(live@);
    let n = body.basic_blocks.len();
    let adj = cfg_successors(body);
    assert(adj_view(adj).len() == n);
    assert(adj@.len() == n);
    let reach = reach_avoiding(&adj, 0, n);
    let mut dead: Vec<Vec<bool>> = Vec::new();
    let mut bb: usize = 0;
    while bb < n
        invariant
            body.wf(),
            n == body.basic_blocks@.len(),
            adj_view(adj) == cfg_adj(*body),
            reach@.len() == n,
            forall|v: int|
                0 <= v < n ==> (#[trigger] reach@[v] <==> reaches(
                    cfg_adj(*body),
                    0,
                    v as usize,
                    n as int,
                )),
            rows_fit(live@, n as nat, body.local_count as nat),
            ins == sets_of(live@),
            borrowed@.len() == body.local_count,
            bs == set_of(borrowed@),
            bs == borrowed_set(*body),
            debug@.len() == body.local_count,
            ds == set_of(debug@),
            ds == debug_set(*body),
            bb <= n,
            dead@.len() == bb,
            forall|b: int|
                0 <= b < bb ==> (#[trigger] dead@[b])@.len()
                    == body.basic_blocks@[b].statements@.len(),
            forall|b: int, i: int|
                0 <= b < bb && 0 <= i < body.basic_blocks@[b].statements@.len() ==> #[trigger] dead@[
                b]@[i] == is_dead_assignment(*body, ins, b, i),
        decreases n - bb,
    {
        let data = &body.basic_blocks[bb];
        assert(block_wf(*data, body.local_count as nat, n as nat));
        let len = data.statements.len();
        let mut row: Vec<bool> = Vec::new();
        while row.len() < len
            invariant
                row@.len() <= len,
                forall|i: int| 0 <= i < row@.len() ==> !#[trigger] row@[i],
            decreases len - row@.len(),
        {
            row.push(false);
        }
        if reach[bb] {
            let mut state = live_at_block_end(body, bb, live);
            let ghost lat = live_after_terminator(*body, ins, bb as int);
            let mut statement_index = len;
            while statement_index > 0
                invariant
                    body.wf(),
                    *data == body.basic_blocks@[bb as int],
                    block_wf(*data, body.local_count as nat, n as nat),
                    len == data.statements@.len(),
                    bb < n,
                    reach@[bb as int],
                    reaches(cfg_adj(*body), 0, bb, n as int),
                    n == body.basic_blocks@.len(),
                    ins == sets_of(live@),
                    lat == live_after_terminator(*body, ins, bb as int),
                    borrowed@.len() == body.local_count,
                    bs == set_of(borrowed@),
                    bs == borrowed_set(*body),
                    debug@.len() == body.local_count,
                    ds == set_of(debug@),
                    ds == debug_set(*body),
                    state@.len() == body.local_count,
                    statement_index <= len,
                    set_of(state@) == live_before(*body, bs, ds, bb as int, statement_index as int, lat),
                    row@.len() == len,
                    forall|i: int|
                        0 <= i < len ==> #[trigger] row@[i] == (statement_index <= i
                            && is_dead_assignment(*body, ins, bb as int, i)),
                decreases statement_index,
            {
                statement_index = statement_index - 1;
                let statement = &data.statements[statement_index];
                assert(statement_wf(*statement, body.local_count as nat));
                let ghost after = set_of(state@);
                assert(after == live_after_statement(*body, bs, ds, ins, bb as int, statement_index as int));
                let is_dead = match statement {
                    Statement::Assign(place, rvalue) => match place.as_local() {
                        Some(local) => {
                            if borrowed[local] || debug[local] {
                                false
                            } else if !rvalue.is_use() {
                                false
                            } else {
                                !state[local]
                            }
                        },
                        None => false,
                    },
                    _ => false,
                };
                assert(is_dead == is_dead_assignment(*body, ins, bb as int, statement_index as int));
                if is_dead {
                    row.set(statement_index, true);
                }
                assert(live_before(*body, bs, ds, bb as int, statement_index as int, lat)
                    == statement_transfer(*statement, after, bs, ds));
                apply_statement(statement, &mut state, borrowed, debug);
            }
        } else {
            assert forall|i: int| 0 <= i < len implies !is_dead_assignment(*body, ins, bb as int, i) by {
                assert(!reach@[bb as int]);
            }
        }
        dead.push(row);
        bb = bb + 1;
    }
    assert forall|b: int, i: int|
        0 <= b < body.basic_blocks@.len() && 0 <= i < body.basic_blocks@[b].statements@.len()
            implies mask_view(dead)[b][i] == is_dead_assignment(*body, sets_of(live@), b, i) by {
        assert(mask_view(dead)[b] == dead@[b]@);
    }
    dead
}


/// Turns the statements that `dead` marks into no-ops.
pub fn nop_marked_statements(body: &mut Body, dead: &Vec<Vec<bool>>)
    requires
        old(body).wf(),
        mask_fits(mask_view(*dead), *old(body)),
    ensures
        final(body).wf(),
        final(body).basic_blocks@.len() == old(body).basic_blocks@.len(),
        final(body).local_count == old(body).local_count,
        final(body).debug_locals@ == old(body).debug_locals@,
        terminators(*final(body)) == terminators(*old(body)),
        forall|b: int|
            0 <= b < final(body).basic_blocks@.len() ==> {
                &&& (#[trigger] final(body).basic_blocks@[b]).is_cleanup
                    == old(body).basic_blocks@[b].is_cleanup
                &&& final(body).basic_blocks@[b].statements@ == Seq::new(
                    old(body).basic_blocks@[b].statements@.len(),
                    |i: int|
                        if mask_view(*dead)[b][i] {
                            Statement::Nop
                        } else {
                            old(body).basic_blocks@[b].statements@[i]
                        },
                )
            },
{
    let ghost original = *body;
    let ghost mask = mask_view(*dead);
    let n = body.basic_blocks.len();
    let mut b: usize = 0;
    while b < n
        invariant
            original == *old(body),
            mask == mask_view(*dead),
            mask_fits(mask, original),
            n == body.basic_blocks@.len(),
            n == original.basic_blocks@.len(),
            b <= n,
            body.wf(),
            body.local_count == original.local_count,
            body.debug_locals@ == original.debug_locals@,
            terminators(*body) == terminators(original),
            forall|c: int|
                0 <= c < n ==> (#[trigger] body.basic_blocks@[c]).is_cleanup
                    == original.basic_blocks@[c].is_cleanup,
            forall|c: int|
                b <= c < n ==> (#[trigger] body.basic_blocks@[c]).statements@
                    == original.basic_blocks@[c].statements@,
            forall|c: int|
                0 <= c < b ==> (#[trigger] body.basic_blocks@[c]).statements@ == Seq::new(
                    original.basic_blocks@[c].statements@.len(),
                    |i: int|
                        if mask[c][i] {
                            Statement::Nop
                        } else {
                            original.basic_blocks@[c].statements@[i]
                        },
                ),
        decreases n - b,
    {
        let row = &dead[b];
        assert(row@ == mask[b as int]);
        let len = body.basic_blocks[b].statements.len();
        let mut i: usize = 0;
        while i < len
            invariant
                original == *old(body),
                mask == mask_view(*dead),
                mask_fits(mask, original),
                row@ == mask[b as int],
                n == body.basic_blocks@.len(),
                n == original.basic_blocks@.len(),
                b < n,
                len == original.basic_blocks@[b as int].statements@.len(),
                i <= len,
                body.wf(),
                body.local_count == original.local_count,
                body.debug_locals@ == original.debug_locals@,
                terminators(*body) == terminators(original),
                forall|c: int|
                    0 <= c < n ==> (#[trigger] body.basic_blocks@[c]).is_cleanup
                        == original.basic_blocks@[c].is_cleanup,
                forall|c: int|
                    b < c < n ==> (#[trigger] body.basic_blocks@[c]).statements@
                        == original.basic_blocks@[c].statements@,
                forall|c: int|
                    0 <= c < b ==> (#[trigger] body.basic_blocks@[c]).statements@ == Seq::new(
                        original.basic_blocks@[c].statements@.len(),
                        |k: int|
                            if mask[c][k] {
                                Statement::Nop
                            } else {
                                original.basic_blocks@[c].statements@[k]
                            },
                    ),
                body.basic_blocks@[b as int].statements@.len() == len,
                forall|k: int|
                    0 <= k < len ==> #[trigger] body.basic_blocks@[b as int].statements@[k] == if k
                        < i && mask[b as int][k] {
                        Statement::Nop
                    } else {
                        original.basic_blocks@[b as int].statements@[k]
                    },
            decreases len - i,
        {
            if row[i] {
                let ghost before = *body;
                body.basic_blocks[b].statements[i] = Statement::Nop;
                proof {
                    assert forall|c: int| 0 <= c < n implies block_wf(
                        #[trigger] body.basic_blocks@[c],
                        body.local_count as nat,
                        n as nat,
                    ) by {
                        assert(block_wf(before.basic_blocks@[c], body.local_count as nat, n as nat));
                        if c != b {
                            assert(body.basic_blocks@[c] == before.basic_blocks@[c]);
                        } else {
                            assert(body.basic_blocks@[c].terminator == before.basic_blocks@[c].terminator);
                            assert forall|k: int| 0 <= k < body.basic_blocks@[c].statements@.len() implies statement_wf(
                                #[trigger] body.basic_blocks@[c].statements@[k],
                                body.local_count as nat,
                            ) by {
                                if k != i {
                                    assert(body.basic_blocks@[c].statements@[k] == before.basic_blocks@[c].statements@[k]);
                                }
                            }
                        }
                    }
                    assert(terminators(*body) =~= terminators(before));
                    assert forall|c: int| 0 <= c < n && c != b implies #[trigger] body.basic_blocks@[c] == before.basic_blocks@[c] by {}
                }
            }
            i = i + 1;
        }
        proof {
            assert(body.basic_blocks@[b as int].statements@ =~= Seq::new(
                original.basic_blocks@[b as int].statements@.len(),
                |k: int|
                    if mask[b as int][k] {
                        Statement::Nop
                    } else {
                        original.basic_blocks@[b as int].statements@[k]
                    },
            ));
        }
        b = b + 1;
    }
}

/// The aggressive dead code elimination pass.
pub struct AdcePass;

impl AdcePass {
    /// Runs aggressive dead code elimination on `body`: finds the dead
    /// assignments with transitive liveness, collapses the dead branches, then
    /// turns the dead assignments into no-ops. Terminators with an effect and
    /// blocks on a cycle keep their terminators, the blocks on cycles are the
    /// same before and after, and a block reached from the entry that holds a
    /// statement the pass keeps is still reached from it.
    ///
    /// No control-flow cleanup runs afterwards: blocks are neither removed,
    /// merged nor renumbered, and statements keep their places, no-ops
    /// included. The arms of a collapsed branch stay in the body, and the
    /// collapsed branch is a `Goto` to its merge block. A compiler pipeline
    /// that runs a CFG simplification after this pass (removing unreachable
    /// blocks, merging `Goto` chains and stripping no-ops) ends with a smaller
    /// body than this function returns; that step is not part of it.
    pub fn run_pass(&self, body: &mut Body)
        requires
            old(body).wf(),
        ensures
            final(body).wf(),
            final(body).basic_blocks@.len() == old(body).basic_blocks@.len(),
            final(body).local_count == old(body).local_count,
            final(body).debug_locals@ == old(body).debug_locals@,
            terminators(*final(body)) == adce_terminators(*old(body)),
            forall|b: int|
                0 <= b < old(body).basic_blocks@.len() && (
                #[trigger] old(body).basic_blocks@[b]).terminator !is SwitchInt
                    ==> final(body).basic_blocks@[b].terminator
                    == old(body).basic_blocks@[b].terminator,
            forall|b: int|
                0 <= b < old(body).basic_blocks@.len() && on_cycle(*old(body), b)
                    ==> (#[trigger] final(body).basic_blocks@[b]).terminator
                    == old(body).basic_blocks@[b].terminator,
            forall|b: int|
                0 <= b < old(body).basic_blocks@.len() ==> #[trigger] on_cycle(*final(body), b)
                    == on_cycle(*old(body), b),
            jumps_keep_cleanup(*old(body), terminators(*old(body))) ==> jumps_keep_cleanup(
                *final(body),
                terminators(*final(body)),
            ),
            forall|b: int, i: int|
                0 <= b < old(body).basic_blocks@.len() && 0 <= i < old(
                    body,
                ).basic_blocks@[b].statements@.len() && entry_reachable(*old(body), b)
                    && !#[trigger] statement_inert(
                    old(body).basic_blocks@[b].statements@[i],
                    dead_mask(*old(body))[b][i],
                ) ==> entry_reachable(*final(body), b),
            forall|b: int|
                0 <= b < final(body).basic_blocks@.len() ==> {
                    &&& (#[trigger] final(body).basic_blocks@[b]).is_cleanup
                        == old(body).basic_blocks@[b].is_cleanup
                    &&& final(body).basic_blocks@[b].statements@ == adce_statements(*old(body), b)
                },
    {
        let ghost original = *body;
        let borrowed = borrowed_locals(body);
        let debug = debuginfo_locals(body);
        // Phase 2: value deadness.
        let live = compute_liveness(body, &borrowed, &debug);
        let dead = find_dead_assignments(body, &live, &borrowed, &debug);
        proof {
            let bs = borrowed_set(original);
            let ds = debug_set(original);
            let c = liveness(original);
            assert(is_least_live_fixpoint(original, bs, ds, sets_of(live@)));
            lemma_least_fixpoint_unique(original, bs, ds, c, sets_of(live@));
            assert(mask_view(dead) =~= dead_mask(original)) by {
                assert forall|b: int| 0 <= b < original.basic_blocks@.len() implies #[trigger] mask_view(
                    dead,
                )[b] =~= dead_mask(original)[b] by {}
            }
        }
        // Phase 1: control-flow deadness.
        let post_dom = PostDomGraph::new(body);
        let doms = dominators(&post_dom);
        collapse_dead_branches(body, &doms, &dead);
        let ghost collapsed = *body;
        nop_marked_statements(body, &dead);
        proof {
            assert forall|b: int| 0 <= b < body.basic_blocks@.len() implies {
                &&& (#[trigger] body.basic_blocks@[b]).is_cleanup == original.basic_blocks@[b].is_cleanup
                &&& body.basic_blocks@[b].statements@ == adce_statements(original, b)
            } by {
                assert(collapsed.basic_blocks@[b].statements@ == original.basic_blocks@[b].statements@);
                assert(collapsed.basic_blocks@[b].is_cleanup == original.basic_blocks@[b].is_cleanup);
                assert(body.basic_blocks@[b].statements@ =~= adce_statements(original, b));
            }
            assert forall|b: int|
                0 <= b < original.basic_blocks@.len() && on_cycle(original, b) implies (
            #[trigger] body.basic_blocks@[b]).terminator == original.basic_blocks@[b].terminator by {
                lemma_loops_kept(original, b);
                assert(terminators(*body)[b] == body.basic_blocks@[b].terminator);
            }
            assert forall|b: int|
                0 <= b < original.basic_blocks@.len() && (
                #[trigger] original.basic_blocks@[b]).terminator !is SwitchInt implies body.basic_blocks@[
                b].terminator == original.basic_blocks@[b].terminator by {
                lemma_effects_never_collapsed(original, b);
                assert(terminators(*body)[b] == body.basic_blocks@[b].terminator);
            }
            assert(cfg_adj(*body) =~= terms_adj(terminators(*body)));
            if jumps_keep_cleanup(original, terminators(original)) {
                lemma_jumps_keep_cleanup(original);
                let tf = terminators(*body);
                assert forall|b: int, j: int|
                    0 <= b < tf.len() && (tf[b] is Goto || tf[b] is SwitchInt) && 0 <= j
                        < tf[b].spec_successors().len() implies body.basic_blocks@[
                #[trigger] tf[b].spec_successors()[j] as int].is_cleanup
                    == body.basic_blocks@[b].is_cleanup by {
                    let c = tf[b].spec_successors()[j];
                    assert(block_wf(body.basic_blocks@[b], body.local_count as nat, tf.len()));
                    assert(tf[b] == body.basic_blocks@[b].terminator);
                    assert(c < tf.len());
                    assert(body.basic_blocks@[c as int].is_cleanup
                        == original.basic_blocks@[c as int].is_cleanup);
                    assert(body.basic_blocks@[b].is_cleanup == original.basic_blocks@[b].is_cleanup);
                }
            }
            assert forall|b: int| 0 <= b < original.basic_blocks@.len() implies #[trigger] on_cycle(
                *body,
                b,
            ) == on_cycle(original, b) by {
                lemma_same_loops(original, b);
                let tf = terminators(*body);
                assert(body.succs(b) == tf[b].spec_successors());
                if on_cycle(*body, b) {
                    let j = choose|j: int|
                        0 <= j < body.succs(b).len() && reaches(
                            cfg_adj(*body),
                            #[trigger] body.succs(b)[j],
                            b as usize,
                            body.basic_blocks@.len() as int,
                        );
                    assert(reaches(terms_adj(tf), tf[b].spec_successors()[j], b as usize, tf.len() as int));
                }
                if cycle_through(tf, b) {
                    let j = choose|j: int|
                        0 <= j < tf[b].spec_successors().len() && reaches(
                            terms_adj(tf),
                            #[trigger] tf[b].spec_successors()[j],
                            b as usize,
                            tf.len() as int,
                        );
                    assert(reaches(cfg_adj(*body), body.succs(b)[j], b as usize, body.basic_blocks@.len() as int));
                }
            }
            assert forall|b: int, i: int|
                0 <= b < original.basic_blocks@.len() && 0 <= i
                    < original.basic_blocks@[b].statements@.len() && entry_reachable(original, b)
                    && !#[trigger] statement_inert(
                    original.basic_blocks@[b].statements@[i],
                    dead_mask(original)[b][i],
                ) implies entry_reachable(*body, b) by {
                lemma_kept_statements_stay_reachable(original, b, i);
            }
        }
    }
}

/// The pass changes a statement only by turning a dead assignment `_l = use`
/// of a whole local, neither borrowed nor referred to by debug information,
/// in a block reached from the entry, into a no-op.
pub proof fn lemma_only_dead_assignments_removed(body: Body, b: int, i: int)
    requires
        0 <= b < body.basic_blocks@.len(),
        0 <= i < body.basic_blocks@[b].statements@.len(),
        adce_statements(body, b)[i] != body.basic_blocks@[b].statements@[i],
    ensures
        adce_statements(body, b)[i] == Statement::Nop,
        entry_reachable(body, b),
        body.basic_blocks@[b].statements@[i] matches Statement::Assign(p, rv) && {
            &&& p.projection@.len() == 0
            &&& rv is Use
            &&& !borrowed_set(body).contains(p.local)
            &&& !debug_set(body).contains(p.local)
            &&& !live_after_statement(
                body,
                borrowed_set(body),
                debug_set(body),
                liveness(body),
                b,
                i,
            ).contains(p.local)
        },
{
    assert(dead_mask(body)[b][i]);
}

/// Statement `st` takes the address of local `l` itself, by a reference or
/// a raw pointer to a place that does not go through a pointer.
pub open spec fn takes_address(st: Statement, l: usize) -> bool {
    match st {
        Statement::Assign(_, r) => match r {
            Rvalue::Ref(q) => !q.projection@.contains(PlaceElem::Deref) && q.local == l,
            Rvalue::RawPtr(q) => !q.projection@.contains(PlaceElem::Deref) && q.local == l,
            _ => false,
        },
        _ => false,
    }
}

/// A dead assignment stores to a local that nothing else can observe: debug
/// information does not name it, no statement of the body takes its address
/// (by a reference or a raw pointer) and no drop drops it in place.
pub proof fn lemma_dead_assignment_unobservable(body: Body, b: int, i: int, c: int, k: int)
    requires
        is_dead_assignment(body, liveness(body), b, i),
        0 <= c < body.basic_blocks@.len(),
    ensures
        body.basic_blocks@[b].statements@[i] matches Statement::Assign(p, rv) && {
            &&& p.projection@.len() == 0
            &&& rv is Use
            &&& !body.debug_locals@.contains(p.local)
            &&& (0 <= k < body.basic_blocks@[c].statements@.len() ==> !takes_address(
                body.basic_blocks@[c].statements@[k],
                p.local,
            ))
            &&& !(body.basic_blocks@[c].terminator matches TerminatorKind::Drop { place: q, .. } && {
                &&& !q.projection@.contains(PlaceElem::Deref)
                &&& q.local == p.local
            })
        },
{
    match body.basic_blocks@[b].statements@[i] {
        Statement::Assign(p, rv) => {
            if 0 <= k < body.basic_blocks@[c].statements@.len() {
                match body.basic_blocks@[c].statements@[k] {
                    Statement::Assign(_, r) => match r {
                        Rvalue::Ref(q) => if !q.projection@.contains(PlaceElem::Deref)
                            && q.local == p.local {
                            crate::liveness::lemma_address_taken_is_borrowed(body, c, k, q);
                        },
                        Rvalue::RawPtr(q) => if !q.projection@.contains(
                            PlaceElem::Deref,
                        ) && q.local == p.local {
                            crate::liveness::lemma_address_taken_is_borrowed(body, c, k, q);
                        },
                        _ => {},
                    },
                    _ => {},
                }
            }
            match body.basic_blocks@[c].terminator {
                TerminatorKind::Drop { place: q, .. } => if !q.projection@.contains(
                    PlaceElem::Deref,
                ) && q.local == p.local {
                    crate::liveness::lemma_dropped_in_place_is_borrowed(body, c, q);
                },
                _ => {},
            }
        },
        _ => {},
    }
}

/// The control dependence chain of `branch` from `cur` is the chain of
/// immediate post-dominators from `cur`, each of them reachable and none of
/// them post-dominating `branch`, up to the first node that post-dominates
/// `branch`, which is left out.
pub proof fn lemma_control_dependent_chain(
    g: Seq<Seq<usize>>,
    s: usize,
    branch: usize,
    cur: usize,
    deps: Seq<usize>,
)
    requires
        control_dependent_blocks(g, s, branch, cur) == Some(deps),
    ensures
        reachable(g, s, cur),
        deps.len() == 0 <==> dominates(g, s, cur, branch),
        deps.len() > 0 ==> deps[0] == cur,
        forall|k: int|
            0 <= k < deps.len() ==> reachable(g, s, #[trigger] deps[k]) && !dominates(
                g,
                s,
                deps[k],
                branch,
            ),
        forall|k: int|
            0 <= k < deps.len() - 1 ==> immediate_dominator_of(g, s, #[trigger] deps[k]) == Some(
                deps[k + 1],
            ),
        deps.len() > 0 ==> match immediate_dominator_of(g, s, deps.last()) {
            Some(z) => dominates(g, s, z, branch),
            None => true,
        },
    decreases dom_rank(g, s, cur),
{
    if !dominates(g, s, cur, branch) {
        match immediate_dominator_of(g, s, cur) {
            Some(next) => {
                lemma_immediate_dominator_of(g, s, cur);
                lemma_idom_rank(g, s, cur, next);
                let rest = control_dependent_blocks(g, s, branch, next)->0;
                lemma_control_dependent_chain(g, s, branch, next, rest);
                assert(deps == seq![cur] + rest);
                assert forall|k: int| 0 <= k < deps.len() implies reachable(
                    g,
                    s,
                    #[trigger] deps[k],
                ) && !dominates(g, s, deps[k], branch) by {
                    if k > 0 {
                        assert(deps[k] == rest[k - 1]);
                    }
                }
                assert forall|k: int| 0 <= k < deps.len() - 1 implies immediate_dominator_of(
                    g,
                    s,
                    #[trigger] deps[k],
                ) == Some(deps[k + 1]) by {
                    if k > 0 {
                        assert(deps[k] == rest[k - 1]);
                        assert(deps[k + 1] == rest[k]);
                    } else if rest.len() > 0 {
                        assert(deps[1] == rest[0]);
                    }
                }
                if rest.len() > 0 {
                    assert(deps.last() == rest.last());
                } else {
                    assert(deps.last() == cur);
                }
            },
            None => {
                assert(deps == seq![cur]);
            },
        }
    }
}

/// While branches are considered in block order, a block's terminator is
/// changed only when it is considered, and only into a `Goto` to its
/// immediate post-dominator.
proof fn lemma_collapsed_terminators_shape(body: Body, dead: Seq<Seq<bool>>, k: int)
    requires
        body.wf(),
        0 <= k <= body.basic_blocks@.len(),
    ensures
        collapse_consistent(
            body,
            collapsed_terminators(
                body,
                post_dom_adj(body),
                body.basic_blocks@.len() as usize,
                dead,
                k,
            ),
        ),
        forall|c: int|
            k <= c < body.basic_blocks@.len() ==> #[trigger] collapsed_terminators(
                body,
                post_dom_adj(body),
                body.basic_blocks@.len() as usize,
                dead,
                k,
            )[c] == body.basic_blocks@[c].terminator,
        forall|c: int|
            0 <= c < k && #[trigger] collapsed_terminators(
                body,
                post_dom_adj(body),
                body.basic_blocks@.len() as usize,
                dead,
                k,
            )[c] != body.basic_blocks@[c].terminator ==> {
                &&& body.basic_blocks@[c].terminator is SwitchInt
                &&& body.succs(c).len() > 1
                &&& reachable(post_dom_adj(body), body.basic_blocks@.len() as usize, c as usize)
                &&& forall|j: int|
                    0 <= j < body.succs(c).len() ==> reachable(
                        post_dom_adj(body),
                        body.basic_blocks@.len() as usize,
                        #[trigger] body.succs(c)[j],
                    )
                &&& immediate_dominator_of(
                    post_dom_adj(body),
                    body.basic_blocks@.len() as usize,
                    c as usize,
                ) matches Some(m) && {
                    &&& m < body.basic_blocks@.len()
                    &&& collapsed_terminators(
                        body,
                        post_dom_adj(body),
                        body.basic_blocks@.len() as usize,
                        dead,
                        k,
                    )[c] == TerminatorKind::Goto { target: m }
                    &&& body.basic_blocks@[c].is_cleanup == body.basic_blocks@[m as int].is_cleanup
                }
            },
    decreases k,
{
    let g = post_dom_adj(body);
    let s = body.basic_blocks@.len() as usize;
    if k == 0 {
        assert(collapse_consistent(body, terminators(body)));
    } else {
        lemma_collapsed_terminators_shape(body, dead, k - 1);
        let t = collapsed_terminators(body, g, s, dead, k - 1);
        let bb = (k - 1) as usize;
        assert(t[bb as int] == body.basic_blocks@[bb as int].terminator);
        if branch_dead(body, t, g, s, dead, bb) {
            lemma_dead_branch_merge_is_block(body, t, dead, bb);
            let succs = t[bb as int].spec_successors();
            assert forall|j: int| 0 <= j < body.succs(bb as int).len() implies reachable(
                g,
                s,
                #[trigger] body.succs(bb as int)[j],
            ) by {
                assert(edge_dead(body, t, g, s, dead, bb, succs[j]));
            }
        }
        let t2 = collapsed_terminators(body, g, s, dead, k);
        assert forall|c: int| 0 <= c < t2.len() implies #[trigger] t2[c] == body.basic_blocks@[c].terminator
            || (t2[c] is Goto && t2[c]->Goto_target < body.basic_blocks@.len() && immediate_dominator_of(
            g,
            s,
            c as usize,
        ) == Some(t2[c]->Goto_target)) by {
            assert(t[c] == body.basic_blocks@[c].terminator || (t[c] is Goto && t[c]->Goto_target
                < body.basic_blocks@.len() && immediate_dominator_of(g, s, c as usize) == Some(
                t[c]->Goto_target,
            )));
        }
    }
}

/// The pass changes a terminator only by collapsing a branch: a `SwitchInt`
/// with more than one successor, from which an exit can be reached, gets a
/// `Goto` to its immediate post-dominator, which is a block with the same
/// cleanup status. Blocks that cannot reach an exit (inside loops that never
/// end) are left alone.
pub proof fn lemma_only_branches_collapsed(body: Body, b: int)
    requires
        body.wf(),
        0 <= b < body.basic_blocks@.len(),
        adce_terminators(body)[b] != body.basic_blocks@[b].terminator,
    ensures
        body.basic_blocks@[b].terminator is SwitchInt,
        body.succs(b).len() > 1,
        reachable(post_dom_adj(body), body.basic_blocks@.len() as usize, b as usize),
        immediate_dominator_of(post_dom_adj(body), body.basic_blocks@.len() as usize, b as usize)
            matches Some(m) && {
            &&& m < body.basic_blocks@.len()
            &&& adce_terminators(body)[b] == TerminatorKind::Goto { target: m }
            &&& body.basic_blocks@[b].is_cleanup == body.basic_blocks@[m as int].is_cleanup
        },
{
    lemma_collapsed_terminators_shape(body, dead_mask(body), body.basic_blocks@.len() as int);
}


/// Under the terminators `t`, every `Goto` and `SwitchInt` edge joins two
/// blocks of `body` that agree on being cleanup blocks: no plain jump enters
/// or leaves an unwinding path.
pub open spec fn jumps_keep_cleanup(body: Body, t: Seq<TerminatorKind>) -> bool {
    forall|b: int, j: int|
        0 <= b < t.len() && (t[b] is Goto || t[b] is SwitchInt) && 0 <= j
            < t[b].spec_successors().len() ==> body.basic_blocks@[#[trigger] t[b].spec_successors()[
            j] as int].is_cleanup == body.basic_blocks@[b].is_cleanup
}

/// Collapsing keeps the cleanup discipline of jumps: when every `Goto` and
/// `SwitchInt` edge of the body joins blocks that agree on being cleanup
/// blocks, so does every such edge once the branches are collapsed.
pub proof fn lemma_jumps_keep_cleanup(body: Body)
    requires
        body.wf(),
        jumps_keep_cleanup(body, terminators(body)),
    ensures
        jumps_keep_cleanup(body, adce_terminators(body)),
{
    let n = body.basic_blocks@.len();
    let t = terminators(body);
    let tf = adce_terminators(body);
    lemma_collapsed_terminators_shape(body, dead_mask(body), n as int);
    assert forall|b: int, j: int|
        0 <= b < tf.len() && (tf[b] is Goto || tf[b] is SwitchInt) && 0 <= j
            < tf[b].spec_successors().len() implies body.basic_blocks@[#[trigger] tf[b].spec_successors()[
        j] as int].is_cleanup == body.basic_blocks@[b].is_cleanup by {
        if tf[b] == body.basic_blocks@[b].terminator {
            assert(t[b] == tf[b]);
            assert(t[b].spec_successors()[j] == tf[b].spec_successors()[j]);
        }
    }
}

/// In a walk of the reverse graph from the virtual exit to a block whose
/// terminator is `Goto { target: m }`, the node before that block is `m`.
proof fn lemma_walk_into_goto(body: Body, c: usize, m: usize, w: Seq<usize>)
    requires
        body.wf(),
        c < body.basic_blocks@.len(),
        body.basic_blocks@[c as int].terminator == (TerminatorKind::Goto { target: m }),
        is_walk(post_dom_adj(body), w, post_dom_adj(body).len() as int),
        w.len() >= 2,
        w.last() == c,
    ensures
        w[w.len() - 2] == m,
{
    let g = post_dom_adj(body);
    let n = body.basic_blocks@.len();
    let y = w[w.len() - 2];
    assert(step(g, w, w.len() - 2));
    assert(g[y as int].contains(c));
    if y == n {
        lemma_real_exit_iff_no_successors(body, c);
    } else {
        lemma_predecessor_iff_successor(body, y, c);
        let j = choose|j: int| 0 <= j < body.succs(c as int).len() && body.succs(c as int)[j] == y;
    }
}

/// The immediate post-dominator of a block ending in `Goto { target: m }`
/// that can reach an exit is `m`.
pub proof fn lemma_goto_post_dominator(body: Body, c: usize, m: usize)
    requires
        body.wf(),
        c < body.basic_blocks@.len(),
        body.basic_blocks@[c as int].terminator == (TerminatorKind::Goto { target: m }),
        reachable(post_dom_adj(body), body.basic_blocks@.len() as usize, c),
    ensures
        is_idom(post_dom_adj(body), body.basic_blocks@.len() as usize, c, m),
        immediate_dominator_of(post_dom_adj(body), body.basic_blocks@.len() as usize, c) == Some(m),
{
    let g = post_dom_adj(body);
    let n = body.basic_blocks@.len();
    let s = n as usize;
    let gl = g.len() as int;
    lemma_post_dom_adj_wf(body);
    assert(block_wf(body.basic_blocks@[c as int], body.local_count as nat, n));
    assert(body.succs(c as int)[0] == m);
    assert(m < n);
    // The edge from `m` to `c` in the reverse graph.
    lemma_predecessor_iff_successor(body, m, c);
    assert(body.succs(c as int).contains(m));
    assert(g[m as int].contains(c));
    // `m` differs from `c`: look at the first time a walk reaches `c`.
    let w = choose|p: Seq<usize>| #[trigger] is_walk(g, p, gl) && p[0] == s && p.last() == c;
    let i = lemma_first_occurrence(w, c);
    lemma_walk_prefix(g, w, i, gl);
    let wp = w.take(i + 1);
    assert(wp[0] == s);
    assert(wp.len() >= 2);
    lemma_walk_into_goto(body, c, m, wp);
    assert(m != c) by {
        assert(w[i - 1] == wp[wp.len() - 2]);
    }
    // `m` dominates `c`.
    assert(dominates(g, s, m, c)) by {
        if reaches(g, s, c, m as int) {
            let v = choose|p: Seq<usize>| #[trigger] is_walk(g, p, m as int) && p[0] == s && p.last() == c;
            lemma_walk_unrestricted(g, v, m as int);
            assert(v.len() >= 2);
            lemma_walk_into_goto(body, c, m, v);
            assert(v[v.len() - 2] != m);
        }
    }
    lemma_dominator_reachable(g, s, m, c);
    // Every strict dominator of `c` dominates `m`.
    assert forall|e: usize| #[trigger] strictly_dominates(g, s, e, c) implies dominates(g, s, e, m) by {
        if reaches(g, s, m, e as int) {
            let v = choose|p: Seq<usize>| #[trigger] is_walk(g, p, e as int) && p[0] == s && p.last() == m;
            lemma_walk_ends_in_graph(g, s, c, gl);
            lemma_walk_extend(g, v, c, e as int);
            assert(is_walk(g, v.push(c), e as int));
        }
    }
    assert(is_idom(g, s, c, m));
    let d = choose|d: usize| is_idom(g, s, c, d);
    lemma_idom_unique(g, s, c, d, m);
}

/// Terminators in which every changed block holds a `Goto` to its immediate
/// post-dominator, which is a block.
pub open spec fn collapse_consistent(body: Body, t: Seq<TerminatorKind>) -> bool {
    &&& t.len() == body.basic_blocks@.len()
    &&& forall|c: int|
        0 <= c < t.len() ==> #[trigger] t[c] == body.basic_blocks@[c].terminator || (t[c] is Goto
            && t[c]->Goto_target < body.basic_blocks@.len() && immediate_dominator_of(
            post_dom_adj(body),
            body.basic_blocks@.len() as usize,
            c as usize,
        ) == Some(t[c]->Goto_target))
}

/// When the immediate post-dominator of `bb` is the virtual exit, a chain of
/// inert control dependent blocks from a block leads back to `bb`.
proof fn lemma_inert_chain_returns(
    body: Body,
    t: Seq<TerminatorKind>,
    dead: Seq<Seq<bool>>,
    bb: usize,
    cur: usize,
    deps: Seq<usize>,
)
    requires
        body.wf(),
        collapse_consistent(body, t),
        bb < body.basic_blocks@.len(),
        cur < body.basic_blocks@.len(),
        reachable(post_dom_adj(body), body.basic_blocks@.len() as usize, bb),
        immediate_dominator_of(post_dom_adj(body), body.basic_blocks@.len() as usize, bb) == Some(
            body.basic_blocks@.len() as usize,
        ),
        control_dependent_blocks(post_dom_adj(body), body.basic_blocks@.len() as usize, bb, cur)
            == Some(deps),
        forall|k: int| 0 <= k < deps.len() ==> block_inert(body, t, #[trigger] deps[k], dead),
    ensures
        dominates(post_dom_adj(body), body.basic_blocks@.len() as usize, bb, cur),
    decreases dom_rank(post_dom_adj(body), body.basic_blocks@.len() as usize, cur),
{
    let g = post_dom_adj(body);
    let n = body.basic_blocks@.len();
    let s = n as usize;
    lemma_post_dom_adj_wf(body);
    if dominates(g, s, cur, bb) {
        if cur != bb {
            lemma_immediate_dominator_of(g, s, bb);
            assert(strictly_dominates(g, s, cur, bb));
            assert(dominates(g, s, cur, s));
            crate::graph::lemma_walk_single(g, s, cur as int);
        }
        lemma_dominates_reflexive(g, s, bb);
    } else {
        assert(deps[0] == cur);
        assert(block_inert(body, t, deps[0], dead));
        let next = t[cur as int]->Goto_target;
        if t[cur as int] == body.basic_blocks@[cur as int].terminator {
            lemma_goto_post_dominator(body, cur, next);
            assert(block_wf(body.basic_blocks@[cur as int], body.local_count as nat, n));
            assert(body.succs(cur as int)[0] == next);
        }
        assert(immediate_dominator_of(g, s, cur) == Some(next));
        lemma_immediate_dominator_of(g, s, cur);
        lemma_idom_rank(g, s, cur, next);
        let rest = control_dependent_blocks(g, s, bb, next)->0;
        assert(deps == seq![cur] + rest);
        assert forall|k: int| 0 <= k < rest.len() implies block_inert(body, t, #[trigger] rest[k], dead) by {
            assert(rest[k] == deps[k + 1]);
        }
        lemma_inert_chain_returns(body, t, dead, bb, next, rest);
        lemma_dominates_transitive(g, s, bb, next, cur);
    }
}

/// A dead branch has an immediate post-dominator, and it is a block, never
/// the virtual exit: collapsing it always yields a `Goto` to a block.
pub proof fn lemma_dead_branch_merge_is_block(
    body: Body,
    t: Seq<TerminatorKind>,
    dead: Seq<Seq<bool>>,
    bb: usize,
)
    requires
        body.wf(),
        collapse_consistent(body, t),
        bb < body.basic_blocks@.len(),
        t[bb as int] == body.basic_blocks@[bb as int].terminator,
        branch_dead(body, t, post_dom_adj(body), body.basic_blocks@.len() as usize, dead, bb),
    ensures
        immediate_dominator_of(post_dom_adj(body), body.basic_blocks@.len() as usize, bb) matches Some(
            m,
        ) && m < body.basic_blocks@.len(),
{
    let g = post_dom_adj(body);
    let n = body.basic_blocks@.len();
    let s = n as usize;
    let gl = g.len() as int;
    lemma_post_dom_adj_wf(body);
    let succs = t[bb as int].spec_successors();
    assert(succs == body.succs(bb as int));
    lemma_idom_exists(g, s, bb);
    lemma_immediate_dominator_of(g, s, bb);
    let m = immediate_dominator_of(g, s, bb)->0;
    assert(m < g.len());
    if m == n {
        // Every successor of `bb` is post-dominated by `bb`.
        assert(block_wf(body.basic_blocks@[bb as int], body.local_count as nat, n));
        assert forall|j: int| 0 <= j < succs.len() implies dominates(g, s, bb, #[trigger] succs[j]) by {
            assert(edge_dead(body, t, g, s, dead, bb, succs[j]));
            let deps = control_dependent_blocks(g, s, bb, succs[j])->0;
            assert(succs[j] < n);
            lemma_inert_chain_returns(body, t, dead, bb, succs[j], deps);
        }
        // Yet a walk from the virtual exit reaches `bb` through one of them.
        let w = choose|p: Seq<usize>| #[trigger] is_walk(g, p, gl) && p[0] == s && p.last() == bb;
        let i = lemma_first_occurrence(w, bb);
        assert(i >= 1);
        let y = w[i - 1];
        assert(step(g, w, i - 1));
        if y == n {
            lemma_real_exit_iff_no_successors(body, bb);
        } else {
            lemma_predecessor_iff_successor(body, y, bb);
            let j = choose|j: int| 0 <= j < succs.len() && succs[j] == y;
            assert(dominates(g, s, bb, succs[j]));
            lemma_walk_prefix(g, w, i - 1, gl);
            lemma_walk_visits_dominator(g, s, bb, y, w.take(i));
            let k = choose|k: int| 0 <= k < w.take(i).len() && w.take(i)[k] == bb;
            assert(w[k] == bb);
        }
    }
}


/// Block `b` lies on a cycle of the control-flow graph: one of its
/// successors leads back to it.
pub open spec fn on_cycle(body: Body, b: int) -> bool {
    exists|j: int|
        0 <= j < body.succs(b).len() && reaches(
            cfg_adj(body),
            #[trigger] body.succs(b)[j],
            b as usize,
            body.basic_blocks@.len() as int,
        )
}

/// Every block of a cycle through `bb` lies on a cycle: the walk `p` from a
/// successor of `bb` back to `bb`, turned around at block `p[i]`.
proof fn lemma_cycle_members(body: Body, bb: int, p: Seq<usize>, i: int)
    requires
        body.wf(),
        0 <= bb < body.basic_blocks@.len(),
        is_walk(cfg_adj(body), p, body.basic_blocks@.len() as int),
        body.succs(bb).contains(p[0]),
        p.last() == bb,
        0 <= i < p.len(),
    ensures
        on_cycle(body, p[i] as int),
{
    let g = cfg_adj(body);
    let n = body.basic_blocks@.len() as int;
    if i == p.len() - 1 {
        let j = choose|j: int| 0 <= j < body.succs(bb).len() && body.succs(bb)[j] == p[0];
        assert(reaches(g, body.succs(bb)[j], bb as usize, n)) by {
            assert(p[0] == body.succs(bb)[j]);
        }
    } else {
        // From `p[i + 1]` along `p` to `bb`, over the edge to `p[0]`, then
        // along `p` up to `p[i]`.
        assert(step(g, p, i));
        let d = p[i] as int;
        assert(g[d] == body.succs(d));
        let j = choose|j: int| 0 <= j < body.succs(d).len() && body.succs(d)[j] == p[i + 1];
        lemma_walk_suffix(g, p, i + 1, n);
        lemma_walk_prefix(g, p, i, n);
        let tail = p.subrange(i + 1, p.len() as int);
        let head = p.take(i + 1);
        assert(tail.last() == bb);
        lemma_walk_extend(g, tail, p[0], n);
        lemma_walk_concat(g, tail.push(p[0]), head, n);
        let q = tail.push(p[0]) + head.drop_first();
        assert(q[0] == p[i + 1]);
        assert(q.last() == p[i]);
        assert(reaches(g, body.succs(d)[j], d as usize, n));
    }
}

/// While branches are considered in block order, no block on a cycle of the
/// control-flow graph is ever collapsed: the cycle is still there when its
/// blocks are considered, so one successor leads back to the branch.
proof fn lemma_cycles_kept_upto(body: Body, dead: Seq<Seq<bool>>, k: int)
    requires
        body.wf(),
        0 <= k <= body.basic_blocks@.len(),
    ensures
        forall|d: int|
            0 <= d < body.basic_blocks@.len() && on_cycle(body, d) ==> #[trigger] collapsed_terminators(
                body,
                post_dom_adj(body),
                body.basic_blocks@.len() as usize,
                dead,
                k,
            )[d] == body.basic_blocks@[d].terminator,
    decreases k,
{
    let g = post_dom_adj(body);
    let n = body.basic_blocks@.len();
    let s = n as usize;
    lemma_collapsed_terminators_shape(body, dead, k);
    if k > 0 {
        lemma_cycles_kept_upto(body, dead, k - 1);
        lemma_collapsed_terminators_shape(body, dead, k - 1);
        let t = collapsed_terminators(body, g, s, dead, k - 1);
        let bb = (k - 1) as usize;
        if on_cycle(body, bb as int) {
            let cfg = cfg_adj(body);
            let succs = body.succs(bb as int);
            let j = choose|j: int|
                0 <= j < succs.len() && reaches(cfg, #[trigger] succs[j], bb, n as int);
            let p = choose|p: Seq<usize>|
                #[trigger] is_walk(cfg, p, n as int) && p[0] == succs[j] && p.last() == bb;
            // The cycle is still a walk of the graph the branch is judged in.
            assert(t[bb as int] == body.basic_blocks@[bb as int].terminator);
            assert forall|i: int| 0 <= i < p.len() implies #[trigger] t[p[i] as int]
                == body.basic_blocks@[p[i] as int].terminator by {
                assert(succs.contains(p[0])) by {
                    assert(succs[j] == p[0]);
                }
                lemma_cycle_members(body, bb as int, p, i);
                assert(p[i] < n);
            }
            let ta = terms_adj(t);
            assert(is_walk(ta, p, t.len() as int)) by {
                assert forall|i: int| 0 <= i < p.len() - 1 implies #[trigger] step(ta, p, i) by {
                    assert(step(cfg, p, i));
                    assert(t[p[i] as int] == body.basic_blocks@[p[i] as int].terminator);
                    assert(ta[p[i] as int] == cfg[p[i] as int]);
                }
                assert forall|i: int| 0 <= i < p.len() implies #[trigger] p[i] < ta.len() && p[i]
                    != t.len() as int by {
                    assert(p[i] < cfg.len());
                }
            }
            let ts = t[bb as int].spec_successors();
            assert(ts[j] == succs[j]);
            assert(reaches(ta, ts[j], bb, t.len() as int));
            assert(!edge_dead(body, t, g, s, dead, bb, ts[j]));
            assert(!branch_dead(body, t, g, s, dead, bb));
        }
    }
}

/// Loops are left alone: a block on a cycle of the control-flow graph keeps
/// its terminator, so every cycle of the body is still there after the pass.
pub proof fn lemma_loops_kept(body: Body, b: int)
    requires
        body.wf(),
        0 <= b < body.basic_blocks@.len(),
        on_cycle(body, b),
    ensures
        adce_terminators(body)[b] == body.basic_blocks@[b].terminator,
{
    lemma_cycles_kept_upto(body, dead_mask(body), body.basic_blocks@.len() as int);
}

/// Block `b` holds a statement that `dead` does not let the pass remove:
/// anything but a no-op, a storage marker or a marked assignment.
pub open spec fn holds_kept_statement(body: Body, dead: Seq<Seq<bool>>, b: int) -> bool {
    exists|i: int|
        0 <= i < body.basic_blocks@[b].statements@.len() && !#[trigger] statement_inert(
            body.basic_blocks@[b].statements@[i],
            dead[b][i],
        )
}

/// A walk that leaves block `bb` nowhere but at its end is also a walk of
/// the graph in which only the terminator of `bb` differs.
proof fn lemma_walk_other_terminator(
    t: Seq<TerminatorKind>,
    t2: Seq<TerminatorKind>,
    bb: int,
    p: Seq<usize>,
)
    requires
        t2.len() == t.len(),
        forall|c: int| 0 <= c < t.len() && c != bb ==> t2[c] == t[c],
        is_walk(terms_adj(t), p, t.len() as int),
        forall|i: int| 0 <= i < p.len() - 1 ==> p[i] != bb,
    ensures
        is_walk(terms_adj(t2), p, t.len() as int),
{
    let ta = terms_adj(t);
    let ta2 = terms_adj(t2);
    assert forall|i: int| 0 <= i < p.len() - 1 implies #[trigger] step(ta2, p, i) by {
        assert(step(ta, p, i));
        assert(p[i] != bb);
        assert(p[i] < ta.len());
        assert(ta2[p[i] as int] == ta[p[i] as int]);
    }
    assert forall|i: int| 0 <= i < p.len() implies #[trigger] p[i] < ta2.len() && p[i] != t.len() as int by {
        assert(p[i] < ta.len());
    }
}

/// A walk of the graph given by `t` that starts at `cur`, the first block of
/// a chain of inert blocks control dependent on `bb`, and ends at a block
/// that is not inert, runs through the whole chain to the node where it
/// stops. That node post-dominates `bb`, and so does every `m` that
/// post-dominates both `bb` and `cur`.
proof fn lemma_inert_chain_forced(
    body: Body,
    t: Seq<TerminatorKind>,
    dead: Seq<Seq<bool>>,
    bb: usize,
    m: usize,
    cur: usize,
    deps: Seq<usize>,
    q: Seq<usize>,
)
    requires
        body.wf(),
        collapse_consistent(body, t),
        reachable(post_dom_adj(body), body.basic_blocks@.len() as usize, bb),
        control_dependent_blocks(post_dom_adj(body), body.basic_blocks@.len() as usize, bb, cur)
            == Some(deps),
        forall|k: int| 0 <= k < deps.len() ==> block_inert(body, t, #[trigger] deps[k], dead),
        dominates(post_dom_adj(body), body.basic_blocks@.len() as usize, m, cur),
        dominates(post_dom_adj(body), body.basic_blocks@.len() as usize, m, bb),
        is_walk(terms_adj(t), q, t.len() as int),
        q[0] == cur,
        !block_inert(body, t, q.last(), dead),
    ensures
        deps.len() < q.len(),
        dominates(post_dom_adj(body), body.basic_blocks@.len() as usize, q[deps.len() as int], bb),
        dominates(post_dom_adj(body), body.basic_blocks@.len() as usize, m, q[deps.len() as int]),
    decreases dom_rank(post_dom_adj(body), body.basic_blocks@.len() as usize, cur),
{
    let g = post_dom_adj(body);
    let n = body.basic_blocks@.len();
    let s = n as usize;
    let ta = terms_adj(t);
    lemma_post_dom_adj_wf(body);
    if !dominates(g, s, cur, bb) {
        lemma_dependents_are_blocks(g, s, bb, cur, deps);
        match immediate_dominator_of(g, s, cur) {
            Some(next) => {
                let rest = control_dependent_blocks(g, s, bb, next)->0;
                assert(deps == seq![cur] + rest);
                assert(deps[0] == cur);
                assert(cur < n);
                assert(block_inert(body, t, deps[0], dead));
                let target = t[cur as int]->Goto_target;
                if t[cur as int] == body.basic_blocks@[cur as int].terminator {
                    lemma_goto_post_dominator(body, cur, target);
                }
                assert(next == target);
                lemma_immediate_dominator_of(g, s, cur);
                lemma_idom_rank(g, s, cur, next);
                // The walk cannot stop at `cur`, which is inert; its next
                // node is the target of the `Goto`.
                assert(q.len() > 1);
                assert(step(ta, q, 0));
                assert(ta[cur as int] == seq![target]);
                assert(q[1] == next);
                assert(m != cur);
                assert(strictly_dominates(g, s, m, cur));
                assert(dominates(g, s, m, next));
                lemma_walk_suffix(ta, q, 1, t.len() as int);
                let q1 = q.subrange(1, q.len() as int);
                assert forall|k: int| 0 <= k < rest.len() implies block_inert(
                    body,
                    t,
                    #[trigger] rest[k],
                    dead,
                ) by {
                    assert(rest[k] == deps[k + 1]);
                }
                lemma_inert_chain_forced(body, t, dead, bb, m, next, rest, q1);
                assert(q1[rest.len() as int] == q[deps.len() as int]);
            },
            None => {
                if cur == s {
                    lemma_start_dominates(g, s, bb);
                }
                lemma_idom_exists(g, s, cur);
            },
        }
    }
}

/// The immediate post-dominator `m` of a branch post-dominates each of its
/// successors that can reach an exit: a walk of the reverse graph to the
/// successor that avoided `m` would go on to the branch.
proof fn lemma_merge_post_dominates_arm(body: Body, bb: usize, m: usize, y: usize)
    requires
        body.wf(),
        bb < body.basic_blocks@.len(),
        immediate_dominator_of(post_dom_adj(body), body.basic_blocks@.len() as usize, bb) == Some(
            m,
        ),
        body.succs(bb as int).contains(y),
        reachable(post_dom_adj(body), body.basic_blocks@.len() as usize, y),
    ensures
        strictly_dominates(post_dom_adj(body), body.basic_blocks@.len() as usize, m, bb),
        dominates(post_dom_adj(body), body.basic_blocks@.len() as usize, m, y),
{
    let g = post_dom_adj(body);
    let n = body.basic_blocks@.len();
    let s = n as usize;
    lemma_post_dom_adj_wf(body);
    lemma_immediate_dominator_of(g, s, bb);
    if reaches(g, s, y, m as int) {
        let p = choose|p: Seq<usize>|
            #[trigger] is_walk(g, p, m as int) && p[0] == s && p.last() == y;
        assert(block_wf(body.basic_blocks@[bb as int], body.local_count as nat, n));
        let j = choose|j: int| 0 <= j < body.succs(bb as int).len() && body.succs(bb as int)[j] == y;
        assert(y < n);
        lemma_predecessor_iff_successor(body, y, bb);
        assert(g[y as int].contains(bb));
        lemma_walk_extend(g, p, bb, m as int);
        assert(reaches(g, s, bb, m as int));
    }
}

/// Collapsing a dead branch keeps every block that is not inert reachable
/// from the entry: a walk that went through one of the branch's arms runs
/// along inert blocks to the branch's immediate post-dominator, which the
/// new `Goto` reaches directly.
proof fn lemma_collapse_keeps_reached(
    body: Body,
    t: Seq<TerminatorKind>,
    dead: Seq<Seq<bool>>,
    bb: usize,
    m: usize,
    v: usize,
)
    requires
        body.wf(),
        collapse_consistent(body, t),
        bb < body.basic_blocks@.len(),
        t[bb as int] == body.basic_blocks@[bb as int].terminator,
        branch_dead(body, t, post_dom_adj(body), body.basic_blocks@.len() as usize, dead, bb),
        immediate_dominator_of(post_dom_adj(body), body.basic_blocks@.len() as usize, bb) == Some(
            m,
        ),
        m < body.basic_blocks@.len(),
        reaches(terms_adj(t), 0, v, t.len() as int),
        !block_inert(body, t, v, dead),
    ensures
        reaches(
            terms_adj(t.update(bb as int, TerminatorKind::Goto { target: m })),
            0,
            v,
            t.len() as int,
        ),
{
    let g = post_dom_adj(body);
    let n = body.basic_blocks@.len();
    let s = n as usize;
    let len = t.len() as int;
    let t2 = t.update(bb as int, TerminatorKind::Goto { target: m });
    let ta = terms_adj(t);
    let ta2 = terms_adj(t2);
    lemma_post_dom_adj_wf(body);
    let w = choose|p: Seq<usize>| #[trigger] is_walk(ta, p, len) && p[0] == 0 && p.last() == v;
    if !w.contains(bb) {
        lemma_walk_other_terminator(t, t2, bb as int, w);
        assert(is_walk(ta2, w, len));
    } else {
        // Up to the first visit of `bb` the walk is unchanged.
        let f = lemma_first_occurrence(w, bb);
        lemma_walk_prefix(ta, w, f, len);
        let pre = w.take(f + 1);
        assert forall|i: int| 0 <= i < pre.len() - 1 implies pre[i] != bb by {
            assert(pre[i] == w[i]);
        }
        lemma_walk_other_terminator(t, t2, bb as int, pre);
        let l = lemma_last_occurrence(w, bb);
        if l == w.len() - 1 {
            assert(is_walk(ta2, pre, len) && pre[0] == 0 && pre.last() == v);
        } else {
            // After the last visit of `bb` the walk leaves along an arm.
            let y = w[l + 1];
            assert(step(ta, w, l));
            let succs = t[bb as int].spec_successors();
            assert(ta[bb as int] == succs);
            let j = choose|j: int| 0 <= j < succs.len() && succs[j] == y;
            assert(edge_dead(body, t, g, s, dead, bb, succs[j]));
            let deps = control_dependent_blocks(g, s, bb, y)->0;
            assert(block_wf(body.basic_blocks@[bb as int], body.local_count as nat, n));
            assert(body.succs(bb as int) == succs);
            assert(y < n);
            lemma_walk_suffix(ta, w, l + 1, len);
            let q = w.subrange(l + 1, w.len() as int);
            assert forall|i: int| 0 <= i < q.len() implies q[i] != bb by {
                assert(q[i] == w[l + 1 + i]);
            }
            assert(reachable(g, s, y));
            lemma_merge_post_dominates_arm(body, bb, m, y);
            lemma_inert_chain_forced(body, t, dead, bb, m, y, deps, q);
            let idx = deps.len() as int;
            let z = q[idx];
            // That chain stops exactly at `m`.
            assert(z != bb);
            assert(strictly_dominates(g, s, z, bb));
            assert(dominates(g, s, z, m));
            crate::dominators::lemma_dominates_antisymmetric(g, s, z, m);
            assert(z == m);
            // So: the walk up to `bb`, the new edge to `m`, and the rest.
            assert(ta2[bb as int] == seq![m]);
            assert(pre.last() == bb);
            assert(ta2[bb as int][0] == m);
            lemma_walk_extend(ta2, pre, m, len);
            lemma_walk_suffix(ta, q, idx, len);
            let r = q.subrange(idx, q.len() as int);
            assert forall|i: int| 0 <= i < r.len() - 1 implies r[i] != bb by {
                assert(r[i] == q[idx + i]);
            }
            lemma_walk_other_terminator(t, t2, bb as int, r);
            lemma_walk_concat(ta2, pre.push(m), r, len);
            let full = pre.push(m) + r.drop_first();
            assert(is_walk(ta2, full, len) && full[0] == 0 && full.last() == v);
        }
    }
    assert(t2.len() == len);
}

/// The chain of inert blocks control dependent on `bb` from `cur`, followed
/// by the node `z` where it stops, is a walk of the graph given by `t`. That
/// node post-dominates `bb`, and so does every `m` that post-dominates both
/// `bb` and `cur`.
proof fn lemma_inert_chain_walk(
    body: Body,
    t: Seq<TerminatorKind>,
    dead: Seq<Seq<bool>>,
    bb: usize,
    m: usize,
    cur: usize,
    deps: Seq<usize>,
) -> (z: usize)
    requires
        body.wf(),
        collapse_consistent(body, t),
        cur < body.basic_blocks@.len(),
        reachable(post_dom_adj(body), body.basic_blocks@.len() as usize, bb),
        control_dependent_blocks(post_dom_adj(body), body.basic_blocks@.len() as usize, bb, cur)
            == Some(deps),
        forall|k: int| 0 <= k < deps.len() ==> block_inert(body, t, #[trigger] deps[k], dead),
        dominates(post_dom_adj(body), body.basic_blocks@.len() as usize, m, cur),
        dominates(post_dom_adj(body), body.basic_blocks@.len() as usize, m, bb),
    ensures
        z < body.basic_blocks@.len(),
        is_walk(terms_adj(t), deps.push(z), t.len() as int),
        deps.push(z)[0] == cur,
        dominates(post_dom_adj(body), body.basic_blocks@.len() as usize, z, bb),
        dominates(post_dom_adj(body), body.basic_blocks@.len() as usize, m, z),
    decreases dom_rank(post_dom_adj(body), body.basic_blocks@.len() as usize, cur),
{
    let g = post_dom_adj(body);
    let n = body.basic_blocks@.len();
    let s = n as usize;
    let ta = terms_adj(t);
    let len = t.len() as int;
    lemma_post_dom_adj_wf(body);
    if dominates(g, s, cur, bb) {
        lemma_walk_single(ta, cur, len);
        assert(deps.push(cur) =~= seq![cur]);
        cur
    } else {
        match immediate_dominator_of(g, s, cur) {
            Some(next) => {
                let rest = control_dependent_blocks(g, s, bb, next)->0;
                assert(deps == seq![cur] + rest);
                assert(deps[0] == cur);
                assert(block_inert(body, t, deps[0], dead));
                let target = t[cur as int]->Goto_target;
                if t[cur as int] == body.basic_blocks@[cur as int].terminator {
                    lemma_goto_post_dominator(body, cur, target);
                    assert(block_wf(body.basic_blocks@[cur as int], body.local_count as nat, n));
                    assert(body.succs(cur as int)[0] == target);
                }
                assert(next == target);
                assert(next < n);
                lemma_immediate_dominator_of(g, s, cur);
                lemma_idom_rank(g, s, cur, next);
                assert(m != cur);
                assert(strictly_dominates(g, s, m, cur));
                assert(dominates(g, s, m, next));
                assert forall|k: int| 0 <= k < rest.len() implies block_inert(
                    body,
                    t,
                    #[trigger] rest[k],
                    dead,
                ) by {
                    assert(rest[k] == deps[k + 1]);
                }
                let z = lemma_inert_chain_walk(body, t, dead, bb, m, next, rest);
                let tail = rest.push(z);
                lemma_walk_single(ta, cur, len);
                assert(ta[cur as int] == seq![next]);
                assert(ta[seq![cur].last() as int].contains(next)) by {
                    assert(ta[cur as int][0] == next);
                }
                lemma_walk_extend(ta, seq![cur], next, len);
                lemma_walk_concat(ta, seq![cur].push(next), tail, len);
                assert(seq![cur].push(next) + tail.drop_first() =~= deps.push(z)) by {
                    if rest.len() > 0 {
                        assert(rest[0] == tail[0]);
                    }
                }
                z
            },
            None => {
                if cur == s {
                    lemma_start_dominates(g, s, bb);
                }
                lemma_idom_exists(g, s, cur);
                cur
            },
        }
    }
}

/// A dead branch reaches its immediate post-dominator in the graph it is
/// judged in: along any arm, the inert control dependent blocks lead there.
proof fn lemma_branch_reaches_merge(
    body: Body,
    t: Seq<TerminatorKind>,
    dead: Seq<Seq<bool>>,
    bb: usize,
    m: usize,
)
    requires
        body.wf(),
        collapse_consistent(body, t),
        bb < body.basic_blocks@.len(),
        t[bb as int] == body.basic_blocks@[bb as int].terminator,
        branch_dead(body, t, post_dom_adj(body), body.basic_blocks@.len() as usize, dead, bb),
        immediate_dominator_of(post_dom_adj(body), body.basic_blocks@.len() as usize, bb) == Some(
            m,
        ),
    ensures
        reaches(terms_adj(t), bb, m, t.len() as int),
{
    let g = post_dom_adj(body);
    let n = body.basic_blocks@.len();
    let s = n as usize;
    let ta = terms_adj(t);
    let len = t.len() as int;
    lemma_post_dom_adj_wf(body);
    let succs = t[bb as int].spec_successors();
    assert(body.succs(bb as int) == succs);
    let y = succs[0];
    assert(edge_dead(body, t, g, s, dead, bb, succs[0]));
    let deps = control_dependent_blocks(g, s, bb, y)->0;
    assert(block_wf(body.basic_blocks@[bb as int], body.local_count as nat, n));
    assert(y < n);
    assert(reachable(g, s, y));
    assert(succs.contains(y));
    lemma_merge_post_dominates_arm(body, bb, m, y);
    let z = lemma_inert_chain_walk(body, t, dead, bb, m, y, deps);
    // The chain cannot lead back to the branch, so it stops at `m`.
    assert(z != bb) by {
        if z == bb {
            assert(reaches(ta, y, bb, len)) by {
                assert(deps.push(z).last() == z);
            }
        }
    }
    lemma_immediate_dominator_of(g, s, bb);
    assert(strictly_dominates(g, s, z, bb));
    assert(dominates(g, s, z, m));
    crate::dominators::lemma_dominates_antisymmetric(g, s, z, m);
    assert(reaches(ta, y, m, len)) by {
        assert(deps.push(z).last() == z);
    }
    lemma_walk_single(ta, bb, len);
    assert(ta[bb as int] == succs);
    lemma_reaches_extend(ta, bb, bb, y, len);
    lemma_reaches_transitive(ta, bb, y, m, len);
}

/// A walk of the graph after one dead branch is collapsed joins its ends in
/// the graph before: the new edge from the branch to its immediate
/// post-dominator stands for a path that was already there.
proof fn lemma_collapse_walk_back(
    body: Body,
    t: Seq<TerminatorKind>,
    dead: Seq<Seq<bool>>,
    bb: usize,
    m: usize,
    w: Seq<usize>,
)
    requires
        body.wf(),
        collapse_consistent(body, t),
        bb < body.basic_blocks@.len(),
        t[bb as int] == body.basic_blocks@[bb as int].terminator,
        branch_dead(body, t, post_dom_adj(body), body.basic_blocks@.len() as usize, dead, bb),
        immediate_dominator_of(post_dom_adj(body), body.basic_blocks@.len() as usize, bb) == Some(
            m,
        ),
        is_walk(
            terms_adj(t.update(bb as int, TerminatorKind::Goto { target: m })),
            w,
            t.len() as int,
        ),
    ensures
        reaches(terms_adj(t), w[0], w.last(), t.len() as int),
    decreases w.len(),
{
    let len = t.len() as int;
    let t2 = t.update(bb as int, TerminatorKind::Goto { target: m });
    let ta = terms_adj(t);
    let ta2 = terms_adj(t2);
    if w.len() == 1 {
        assert(w[0] < ta2.len());
        lemma_walk_single(ta, w[0], len);
    } else {
        let last = w.len() - 1;
        lemma_walk_prefix(ta2, w, last - 1, len);
        let w1 = w.take(last);
        lemma_collapse_walk_back(body, t, dead, bb, m, w1);
        let u = w[last - 1];
        let v = w[last];
        assert(step(ta2, w, last - 1));
        assert(w[last] < ta2.len());
        if u != bb {
            assert(ta[u as int] == ta2[u as int]);
            lemma_reaches_extend(ta, w[0], u, v, len);
        } else {
            assert(ta2[bb as int] == seq![m]);
            assert(v == m);
            lemma_branch_reaches_merge(body, t, dead, bb, m);
            lemma_reaches_transitive(ta, w[0], bb, m, len);
        }
    }
}

/// While branches are considered in block order, no node comes to reach
/// another that it did not reach in the control-flow graph of the body.
proof fn lemma_no_reach_added_upto(body: Body, dead: Seq<Seq<bool>>, k: int)
    requires
        body.wf(),
        0 <= k <= body.basic_blocks@.len(),
    ensures
        forall|a: usize, v: usize|
            #[trigger] reaches(
                terms_adj(
                    collapsed_terminators(
                        body,
                        post_dom_adj(body),
                        body.basic_blocks@.len() as usize,
                        dead,
                        k,
                    ),
                ),
                a,
                v,
                body.basic_blocks@.len() as int,
            ) ==> reaches(cfg_adj(body), a, v, body.basic_blocks@.len() as int),
    decreases k,
{
    let g = post_dom_adj(body);
    let n = body.basic_blocks@.len();
    let s = n as usize;
    if k == 0 {
        assert(terms_adj(terminators(body)) =~= cfg_adj(body));
    } else {
        lemma_no_reach_added_upto(body, dead, k - 1);
        lemma_collapsed_terminators_shape(body, dead, k - 1);
        let t = collapsed_terminators(body, g, s, dead, k - 1);
        let bb = (k - 1) as usize;
        assert(t[bb as int] == body.basic_blocks@[bb as int].terminator);
        if branch_dead(body, t, g, s, dead, bb) {
            lemma_dead_branch_merge_is_block(body, t, dead, bb);
            let m = immediate_dominator_of(g, s, bb)->0;
            let t2 = t.update(bb as int, TerminatorKind::Goto { target: m });
            assert forall|a: usize, v: usize| #[trigger]
                reaches(terms_adj(t2), a, v, n as int) implies reaches(
                cfg_adj(body),
                a,
                v,
                n as int,
            ) by {
                let w = choose|p: Seq<usize>|
                    #[trigger] is_walk(terms_adj(t2), p, n as int) && p[0] == a && p.last() == v;
                lemma_collapse_walk_back(body, t, dead, bb, m, w);
                assert(reaches(terms_adj(t), a, v, n as int));
            }
        }
    }
}

/// Some successor of block `b`, under the terminators `t`, leads back to it.
pub open spec fn cycle_through(t: Seq<TerminatorKind>, b: int) -> bool {
    exists|j: int|
        0 <= j < t[b].spec_successors().len() && reaches(
            terms_adj(t),
            #[trigger] t[b].spec_successors()[j],
            b as usize,
            t.len() as int,
        )
}

/// The pass neither removes nor adds loops: a block lies on a cycle of the
/// control-flow graph once the branches are collapsed exactly when it did
/// before.
pub proof fn lemma_same_loops(body: Body, b: int)
    requires
        body.wf(),
        0 <= b < body.basic_blocks@.len(),
    ensures
        cycle_through(adce_terminators(body), b) == on_cycle(body, b),
{
    let g = post_dom_adj(body);
    let n = body.basic_blocks@.len();
    let s = n as usize;
    let dead = dead_mask(body);
    let tf = adce_terminators(body);
    let cfg = cfg_adj(body);
    let tfa = terms_adj(tf);
    lemma_collapsed_terminators_shape(body, dead, n as int);
    lemma_cycles_kept_upto(body, dead, n as int);
    lemma_no_reach_added_upto(body, dead, n as int);
    assert(tf.len() == n);
    if cycle_through(tf, b) {
        let succs = tf[b].spec_successors();
        let j = choose|j: int|
            0 <= j < succs.len() && reaches(tfa, #[trigger] succs[j], b as usize, n as int);
        let x = succs[j];
        assert(reaches(cfg, x, b as usize, n as int));
        if tf[b] == body.basic_blocks@[b].terminator {
            assert(body.succs(b)[j] == x);
        } else {
            // A collapsed branch: its `Goto` target `m` leads back to it, and
            // it reached `m` before through one of its successors.
            let m = immediate_dominator_of(g, s, b as usize)->0;
            assert(tf[b] == TerminatorKind::Goto { target: m });
            assert(x == m);
            lemma_immediate_dominator_of(g, s, b as usize);
            assert(m != b);
            lemma_walk_single(tfa, b as usize, n as int);
            assert(tfa[b][0] == m);
            lemma_reaches_extend(tfa, b as usize, b as usize, m, n as int);
            assert(reaches(cfg, b as usize, m, n as int));
            let p = choose|p: Seq<usize>|
                #[trigger] is_walk(cfg, p, n as int) && p[0] == b as usize && p.last() == m;
            assert(p.len() >= 2);
            assert(step(cfg, p, 0));
            assert(cfg[b] == body.succs(b));
            let j2 = choose|j2: int| 0 <= j2 < body.succs(b).len() && body.succs(b)[j2] == p[1];
            lemma_walk_suffix(cfg, p, 1, n as int);
            assert(reaches(cfg, p[1], m, n as int));
            lemma_reaches_transitive(cfg, p[1], m, b as usize, n as int);
            assert(reaches(cfg, body.succs(b)[j2], b as usize, n as int));
        }
    }
    if on_cycle(body, b) {
        let succs = body.succs(b);
        let j = choose|j: int|
            0 <= j < succs.len() && reaches(cfg, #[trigger] succs[j], b as usize, n as int);
        let p = choose|p: Seq<usize>|
            #[trigger] is_walk(cfg, p, n as int) && p[0] == succs[j] && p.last() == b as usize;
        assert(tf[b] == body.basic_blocks@[b].terminator);
        assert forall|i: int| 0 <= i < p.len() implies #[trigger] tf[p[i] as int]
            == body.basic_blocks@[p[i] as int].terminator by {
            assert(succs.contains(p[0])) by {
                assert(succs[j] == p[0]);
            }
            lemma_cycle_members(body, b, p, i);
            assert(p[i] < n);
        }
        assert(is_walk(tfa, p, n as int)) by {
            assert forall|i: int| 0 <= i < p.len() - 1 implies #[trigger] step(tfa, p, i) by {
                assert(step(cfg, p, i));
                assert(tf[p[i] as int] == body.basic_blocks@[p[i] as int].terminator);
                assert(tfa[p[i] as int] == cfg[p[i] as int]);
            }
            assert forall|i: int| 0 <= i < p.len() implies #[trigger] p[i] < tfa.len() && p[i]
                != n as int by {
                assert(p[i] < cfg.len());
            }
        }
        assert(tf[b].spec_successors()[j] == succs[j]);
        assert(reaches(tfa, tf[b].spec_successors()[j], b as usize, n as int));
    }
}

/// While branches are considered in block order, every block reached from
/// the entry that holds a statement the pass keeps stays reached from the
/// entry.
proof fn lemma_kept_blocks_reached_upto(body: Body, dead: Seq<Seq<bool>>, k: int)
    requires
        body.wf(),
        0 <= k <= body.basic_blocks@.len(),
    ensures
        forall|v: int|
            0 <= v < body.basic_blocks@.len() && entry_reachable(body, v) && #[trigger]
                holds_kept_statement(body, dead, v) ==> reaches(
                terms_adj(
                    collapsed_terminators(
                        body,
                        post_dom_adj(body),
                        body.basic_blocks@.len() as usize,
                        dead,
                        k,
                    ),
                ),
                0,
                v as usize,
                body.basic_blocks@.len() as int,
            ),
    decreases k,
{
    let g = post_dom_adj(body);
    let n = body.basic_blocks@.len();
    let s = n as usize;
    if k == 0 {
        assert(terms_adj(terminators(body)) =~= cfg_adj(body));
    } else {
        lemma_kept_blocks_reached_upto(body, dead, k - 1);
        lemma_collapsed_terminators_shape(body, dead, k - 1);
        let t = collapsed_terminators(body, g, s, dead, k - 1);
        let bb = (k - 1) as usize;
        assert(t[bb as int] == body.basic_blocks@[bb as int].terminator);
        if branch_dead(body, t, g, s, dead, bb) {
            lemma_dead_branch_merge_is_block(body, t, dead, bb);
            let m = immediate_dominator_of(g, s, bb)->0;
            if body.basic_blocks@[bb as int].is_cleanup == body.basic_blocks@[m as int].is_cleanup {
                assert forall|v: int|
                    0 <= v < n && entry_reachable(body, v) && #[trigger] holds_kept_statement(
                        body,
                        dead,
                        v,
                    ) implies reaches(
                    terms_adj(t.update(bb as int, TerminatorKind::Goto { target: m })),
                    0,
                    v as usize,
                    n as int,
                ) by {
                    let i = choose|i: int|
                        0 <= i < body.basic_blocks@[v].statements@.len() && !#[trigger] statement_inert(
                            body.basic_blocks@[v].statements@[i],
                            dead[v][i],
                        );
                    assert(!block_inert(body, t, v as usize, dead));
                    lemma_collapse_keeps_reached(body, t, dead, bb, m, v as usize);
                }
            }
        }
    }
}

/// A statement that the pass keeps (anything but a no-op, a storage marker
/// or a dead assignment) in a block reached from the entry is left as it is,
/// and its block is still reached from the entry once the branches are
/// collapsed.
pub proof fn lemma_kept_statements_stay_reachable(body: Body, b: int, i: int)
    requires
        body.wf(),
        0 <= b < body.basic_blocks@.len(),
        0 <= i < body.basic_blocks@[b].statements@.len(),
        entry_reachable(body, b),
        !statement_inert(body.basic_blocks@[b].statements@[i], dead_mask(body)[b][i]),
    ensures
        adce_statements(body, b)[i] == body.basic_blocks@[b].statements@[i],
        reaches(
            terms_adj(adce_terminators(body)),
            0,
            b as usize,
            body.basic_blocks@.len() as int,
        ),
{
    assert(holds_kept_statement(body, dead_mask(body), b));
    lemma_kept_blocks_reached_upto(body, dead_mask(body), body.basic_blocks@.len() as int);
}

/// Terminators with an effect of their own are never removed: the pass
/// leaves calls, drops, asserts and inline assembly unchanged, and every
/// other terminator but a `SwitchInt` too.
pub proof fn lemma_effects_never_collapsed(body: Body, b: int)
    requires
        body.wf(),
        0 <= b < body.basic_blocks@.len(),
        !(body.basic_blocks@[b].terminator is SwitchInt),
    ensures
        adce_terminators(body)[b] == body.basic_blocks@[b].terminator,
{
    lemma_collapsed_terminators_shape(body, dead_mask(body), body.basic_blocks@.len() as int);
}

} // verus!
