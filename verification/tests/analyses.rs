use mir_adce::adce::{
    branch_is_dead, collapse_dead_branches, find_control_dependent_blocks, find_dead_assignments,
    nop_marked_statements,
};
use mir_adce::dominators::Dominators;
use mir_adce::graph::reach_avoiding;
use mir_adce::liveness::{
    borrowed_locals, compute_liveness, debuginfo_locals, live_at_block_end, live_in_of,
};
use mir_adce::mir::{
    BasicBlockData, Body, Operand, Place, PlaceElem, Rvalue, Statement, TerminatorKind,
    UnwindAction,
};
use mir_adce::post_dom::{cfg_predecessors_of, dominators, PostDomGraph};

fn local(l: usize) -> Place {
    Place { local: l, projection: vec![] }
}

fn block(statements: Vec<Statement>, terminator: TerminatorKind) -> BasicBlockData {
    BasicBlockData { statements, terminator, is_cleanup: false }
}

fn switch(discr: usize, targets: Vec<usize>, otherwise: usize) -> TerminatorKind {
    TerminatorKind::SwitchInt { discr: Operand::Copy(local(discr)), targets, otherwise }
}

/// `choose_branch`: 0 branches to 1 and 2, which both go to 3, which returns.
fn diamond() -> Body {
    Body {
        basic_blocks: vec![
            block(vec![], switch(1, vec![1], 2)),
            block(vec![Statement::Assign(local(2), Rvalue::Use(Operand::Constant))], TerminatorKind::Goto { target: 3 }),
            block(vec![Statement::Assign(local(2), Rvalue::Use(Operand::Constant))], TerminatorKind::Goto { target: 3 }),
            block(
                vec![Statement::Assign(local(0), Rvalue::Use(Operand::Copy(local(2))))],
                TerminatorKind::Return,
            ),
        ],
        local_count: 3,
        debug_locals: vec![],
    }
}

#[test]
fn successors_follow_terminator_kinds() {
    assert_eq!(switch(1, vec![4, 4, 5], 6).successors(), vec![4, 4, 5, 6]);
    let call = TerminatorKind::Call {
        func: Operand::Constant,
        args: vec![],
        destination: local(0),
        target: Some(2),
        unwind: UnwindAction::Cleanup(7),
    };
    assert_eq!(call.successors(), vec![2, 7]);
    let diverging = TerminatorKind::Call {
        func: Operand::Constant,
        args: vec![],
        destination: local(0),
        target: None,
        unwind: UnwindAction::Continue,
    };
    assert!(diverging.successors().is_empty());
    let drop = TerminatorKind::Drop { place: local(1), target: 3, unwind: UnwindAction::Cleanup(4) };
    assert_eq!(drop.successors(), vec![3, 4]);
    assert!(TerminatorKind::Return.successors().is_empty());
    assert!(TerminatorKind::UnwindResume.successors().is_empty());
    let inline_jump = TerminatorKind::InlineAsm {
        inputs: vec![],
        outputs: vec![],
        targets: vec![1, 2],
        unwind: UnwindAction::Cleanup(3),
    };
    assert_eq!(inline_jump.successors(), vec![1, 2, 3]);
    let inline_no_unwind =
        TerminatorKind::InlineAsm { inputs: vec![], outputs: vec![], targets: vec![5], unwind: UnwindAction::Terminate };
    assert_eq!(inline_no_unwind.successors(), vec![5]);
    assert!(TerminatorKind::Goto { target: 9 }.is_goto());
    assert!(!TerminatorKind::Return.is_goto());
    assert!(switch(1, vec![2], 3).is_switch_int());
    assert!(!inline_jump.is_switch_int());
}

#[test]
fn places_know_their_shape() {
    let p = Place { local: 3, projection: vec![PlaceElem::Field(1), PlaceElem::Deref] };
    assert!(p.is_indirect());
    assert_eq!(p.as_local(), None);
    let q = Place { local: 3, projection: vec![PlaceElem::Index(2)] };
    assert!(!q.is_indirect());
    assert_eq!(local(5).as_local(), Some(5));
    assert!(Rvalue::Use(Operand::Constant).is_safe_to_remove());
    assert!(!Rvalue::ExposeProvenance(Operand::Constant).is_safe_to_remove());
    assert!(Rvalue::Use(Operand::Constant).is_use());
    assert!(!Rvalue::Ref(local(1)).is_use());
}

#[test]
fn predecessors_repeat_per_edge() {
    let b = Body {
        basic_blocks: vec![
            block(vec![], switch(1, vec![1, 1], 2)),
            block(vec![], TerminatorKind::Goto { target: 2 }),
            block(vec![], TerminatorKind::Return),
        ],
        local_count: 2,
        debug_locals: vec![],
    };
    assert_eq!(cfg_predecessors_of(&b, 1), vec![0, 0]);
    assert_eq!(cfg_predecessors_of(&b, 2), vec![0, 1]);
    assert_eq!(cfg_predecessors_of(&b, 0), Vec::<usize>::new());
}

#[test]
fn post_dom_graph_of_diamond() {
    let b = diamond();
    let g = PostDomGraph::new(&b);
    assert_eq!(g.num_nodes(), 5);
    assert_eq!(g.start_node(), 4);
    assert_eq!(g.successors(4), vec![3]);
    assert_eq!(g.successors(3), vec![1, 2]);
    assert_eq!(g.successors(1), vec![0]);
    assert_eq!(g.successors(0), Vec::<usize>::new());
    assert_eq!(g.predecessors(3), vec![4]);
    assert_eq!(g.predecessors(0), vec![1, 2]);
    assert_eq!(g.predecessors(1), vec![3]);
}

#[test]
fn post_dominators_of_diamond() {
    let b = diamond();
    let g = PostDomGraph::new(&b);
    let d = dominators(&g);
    assert_eq!(d.num_nodes(), 5);
    assert_eq!(d.start_node(), 4);
    for v in 0..5 {
        assert!(d.is_reachable(v));
    }
    assert_eq!(d.immediate_dominator(4), None);
    assert_eq!(d.immediate_dominator(3), Some(4));
    assert_eq!(d.immediate_dominator(1), Some(3));
    assert_eq!(d.immediate_dominator(2), Some(3));
    assert_eq!(d.immediate_dominator(0), Some(3));
    assert!(d.dominates(3, 0));
    assert!(d.dominates(4, 0));
    assert!(d.dominates(0, 0));
    assert!(!d.dominates(1, 0));
    assert!(!d.dominates(2, 0));
    assert!(!d.dominates(0, 3));
}

/// The laws on a concrete graph: every reachable node other than the start
/// has exactly one immediate dominator, which strictly dominates it, and the
/// start dominates every reachable node.
#[test]
fn dominator_tree_laws_on_a_graph() {
    // 0 -> 1, 0 -> 2, 1 -> 3, 2 -> 3, 3 -> 4, 4 -> 1, 5 -> 0 (5 unreachable from 0)
    let adj: Vec<Vec<usize>> = vec![vec![1, 2], vec![3], vec![3], vec![4], vec![1], vec![0]];
    let d = Dominators::compute(&adj, 0);
    assert!(!d.is_reachable(5));
    assert_eq!(d.immediate_dominator(5), None);
    assert_eq!(d.immediate_dominator(0), None);
    assert_eq!(d.immediate_dominator(1), Some(0));
    assert_eq!(d.immediate_dominator(2), Some(0));
    assert_eq!(d.immediate_dominator(3), Some(0));
    assert_eq!(d.immediate_dominator(4), Some(3));
    for v in 0..5 {
        assert!(d.dominates(0, v));
        assert!(d.dominates(v, v));
        if v != 0 {
            let i = d.immediate_dominator(v).unwrap();
            assert!(i != v && d.dominates(i, v));
            for e in 0..6 {
                if e != v && d.dominates(e, v) {
                    assert!(d.dominates(e, i));
                }
            }
        }
        for w in 0..5 {
            if v != w && d.dominates(v, w) {
                assert!(!d.dominates(w, v));
            }
        }
    }
}

#[test]
fn reach_avoiding_skips_the_avoided_node() {
    let adj: Vec<Vec<usize>> = vec![vec![1], vec![2], vec![], vec![2]];
    assert_eq!(reach_avoiding(&adj, 0, 4), vec![true, true, true, false]);
    assert_eq!(reach_avoiding(&adj, 0, 1), vec![true, false, false, false]);
    assert_eq!(reach_avoiding(&adj, 0, 0), vec![false, false, false, false]);
}

#[test]
fn control_dependence_in_diamond() {
    let b = diamond();
    let g = PostDomGraph::new(&b);
    let d = dominators(&g);
    assert_eq!(find_control_dependent_blocks(0, 1, &d), Some(vec![1]));
    assert_eq!(find_control_dependent_blocks(0, 2, &d), Some(vec![2]));
    assert_eq!(find_control_dependent_blocks(0, 3, &d), Some(vec![]));
    // From the branch block itself, the walk stops at once.
    assert_eq!(find_control_dependent_blocks(0, 0, &d), Some(vec![]));
}

#[test]
fn control_dependence_meets_a_node_without_exit() {
    // 0 branches to 1 (an endless loop) and 2 (return).
    let b = Body {
        basic_blocks: vec![
            block(vec![], switch(1, vec![1], 2)),
            block(vec![], TerminatorKind::Goto { target: 1 }),
            block(vec![], TerminatorKind::Return),
        ],
        local_count: 2,
        debug_locals: vec![],
    };
    let g = PostDomGraph::new(&b);
    let d = dominators(&g);
    assert!(!d.is_reachable(1));
    assert_eq!(find_control_dependent_blocks(0, 1, &d), None);
    // Block 2 post-dominates the branch: every exit is reached through it.
    assert!(d.dominates(2, 0));
    assert_eq!(find_control_dependent_blocks(0, 2, &d), Some(vec![]));
    // From a branch that reaches no exit, an edge that reaches none either
    // has no control dependent blocks.
    assert_eq!(find_control_dependent_blocks(1, 1, &d), None);
    let dead: Vec<Vec<bool>> = vec![vec![], vec![], vec![]];
    assert!(!branch_is_dead(&b, 0, &d, &dead));
}

#[test]
fn branch_is_dead_depends_on_dead_mask() {
    let b = diamond();
    let g = PostDomGraph::new(&b);
    let d = dominators(&g);
    let none: Vec<Vec<bool>> = vec![vec![], vec![false], vec![false], vec![false]];
    assert!(!branch_is_dead(&b, 0, &d, &none));
    let both: Vec<Vec<bool>> = vec![vec![], vec![true], vec![true], vec![false]];
    assert!(branch_is_dead(&b, 0, &d, &both));
    // A block with one successor is no branch.
    assert!(!branch_is_dead(&b, 1, &d, &both));
}

#[test]
fn branch_back_to_itself_is_not_dead() {
    // 0 goes to 1, which branches to 2 (return) or back to itself.
    let b = Body {
        basic_blocks: vec![
            block(vec![], TerminatorKind::Goto { target: 1 }),
            block(vec![], switch(1, vec![2], 1)),
            block(vec![], TerminatorKind::Return),
        ],
        local_count: 2,
        debug_locals: vec![],
    };
    let g = PostDomGraph::new(&b);
    let d = dominators(&g);
    assert!(d.is_reachable(1));
    let dead: Vec<Vec<bool>> = vec![vec![], vec![], vec![]];
    assert!(!branch_is_dead(&b, 1, &d, &dead));
}

#[test]
fn collapse_needs_matching_cleanup() {
    let mut b = Body {
        basic_blocks: vec![
            block(vec![], switch(1, vec![1], 2)),
            block(vec![], TerminatorKind::Goto { target: 3 }),
            block(vec![], TerminatorKind::Goto { target: 3 }),
            BasicBlockData { statements: vec![], terminator: TerminatorKind::Return, is_cleanup: true },
        ],
        local_count: 2,
        debug_locals: vec![],
    };
    let before = b.clone();
    let dead: Vec<Vec<bool>> = vec![vec![], vec![], vec![], vec![]];
    let d = {
        let g = PostDomGraph::new(&before);
        dominators(&g)
    };
    collapse_dead_branches(&mut b, &d, &dead);
    assert_eq!(b, before);
}

#[test]
fn liveness_of_diamond() {
    let b = diamond();
    let borrowed = borrowed_locals(&b);
    let debug = debuginfo_locals(&b);
    assert_eq!(borrowed, vec![false, false, false]);
    assert_eq!(debug, vec![false, false, false]);
    let live = compute_liveness(&b, &borrowed, &debug);
    // Entry of 0 reads the discriminant; 1 and 2 overwrite _2; 3 reads _2.
    assert_eq!(live[0], vec![false, true, false]);
    assert_eq!(live[1], vec![false, false, false]);
    assert_eq!(live[2], vec![false, false, false]);
    assert_eq!(live[3], vec![false, false, true]);
    assert_eq!(live_at_block_end(&b, 3, &live), vec![true, false, false]);
    assert_eq!(live_at_block_end(&b, 1, &live), vec![false, false, true]);
    let dead = find_dead_assignments(&b, &live, &borrowed, &debug);
    assert_eq!(dead, vec![vec![], vec![false], vec![false], vec![false]]);
}

#[test]
fn liveness_through_a_loop() {
    // 0: _2 = _1; goto 1.  1: switch _2 -> [2] else 1.  2: _0 = _2; return.
    let b = Body {
        basic_blocks: vec![
            block(
                vec![Statement::Assign(local(2), Rvalue::Use(Operand::Copy(local(1))))],
                TerminatorKind::Goto { target: 1 },
            ),
            block(vec![], switch(2, vec![2], 1)),
            block(
                vec![Statement::Assign(local(0), Rvalue::Use(Operand::Copy(local(2))))],
                TerminatorKind::Return,
            ),
        ],
        local_count: 3,
        debug_locals: vec![],
    };
    let borrowed = borrowed_locals(&b);
    let debug = debuginfo_locals(&b);
    let live = compute_liveness(&b, &borrowed, &debug);
    assert_eq!(live[0], vec![false, true, false]);
    assert_eq!(live[1], vec![false, false, true]);
    assert_eq!(live[2], vec![false, false, true]);
}

#[test]
fn call_return_edge_defines_destination() {
    // 0: _2 = const; _2 = call() -> 1.  1: _0 = _2; return.
    let b = Body {
        basic_blocks: vec![
            block(
                vec![Statement::Assign(local(2), Rvalue::Use(Operand::Constant))],
                TerminatorKind::Call {
                    func: Operand::Constant,
                    args: vec![Operand::Copy(local(1))],
                    destination: local(2),
                    target: Some(1),
                    unwind: UnwindAction::Continue,
                },
            ),
            block(
                vec![Statement::Assign(local(0), Rvalue::Use(Operand::Copy(local(2))))],
                TerminatorKind::Return,
            ),
        ],
        local_count: 3,
        debug_locals: vec![],
    };
    let borrowed = borrowed_locals(&b);
    let debug = debuginfo_locals(&b);
    let live = compute_liveness(&b, &borrowed, &debug);
    assert_eq!(live_at_block_end(&b, 0, &live), vec![false, true, false]);
    let dead = find_dead_assignments(&b, &live, &borrowed, &debug);
    assert_eq!(dead, vec![vec![true], vec![false]]);
}

#[test]
fn borrowed_and_debug_locals() {
    let deref = Place { local: 4, projection: vec![PlaceElem::Deref] };
    let b = Body {
        basic_blocks: vec![
            block(
                vec![
                    Statement::Assign(local(1), Rvalue::Ref(local(2))),
                    Statement::Assign(local(3), Rvalue::RawPtr(deref)),
                ],
                TerminatorKind::Drop { place: local(5), target: 1, unwind: UnwindAction::Continue },
            ),
            block(vec![], TerminatorKind::Return),
        ],
        local_count: 6,
        debug_locals: vec![3, 1],
    };
    assert_eq!(borrowed_locals(&b), vec![false, false, true, false, false, true]);
    assert_eq!(debuginfo_locals(&b), vec![false, true, false, true, false, false]);
}

#[test]
fn nop_marked_statements_only_touches_marks() {
    let mut b = diamond();
    let marks: Vec<Vec<bool>> = vec![vec![], vec![true], vec![false], vec![false]];
    nop_marked_statements(&mut b, &marks);
    let mut expected = diamond();
    expected.basic_blocks[1].statements[0] = Statement::Nop;
    assert_eq!(b, expected);
}

/// The computed entry sets solve the liveness equations, and solving from
/// them again changes nothing.
#[test]
fn liveness_is_a_fixpoint() {
    let b = Body {
        basic_blocks: vec![
            block(
                vec![Statement::Assign(local(2), Rvalue::Use(Operand::Copy(local(1))))],
                TerminatorKind::Goto { target: 1 },
            ),
            block(
                vec![Statement::Assign(local(3), Rvalue::Use(Operand::Copy(local(2))))],
                switch(3, vec![2], 1),
            ),
            block(
                vec![Statement::Assign(local(0), Rvalue::Use(Operand::Copy(local(2))))],
                TerminatorKind::Return,
            ),
        ],
        local_count: 4,
        debug_locals: vec![],
    };
    let borrowed = borrowed_locals(&b);
    let debug = debuginfo_locals(&b);
    let live = compute_liveness(&b, &borrowed, &debug);
    for bb in 0..3 {
        assert_eq!(live_in_of(&b, bb, &live, &borrowed, &debug), live[bb]);
    }
    assert_eq!(live[1], vec![false, false, true, false]);
    assert_eq!(compute_liveness(&b, &borrowed, &debug), live);
}
