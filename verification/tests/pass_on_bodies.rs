use mir_adce::adce::AdcePass;
use mir_adce::graph::reach_avoiding;
use mir_adce::mir::{
    BasicBlockData, Body, Operand, Place, PlaceElem, Rvalue, Statement, TerminatorKind,
    UnwindAction,
};

fn local(l: usize) -> Place {
    Place { local: l, projection: vec![] }
}

fn copy(l: usize) -> Operand {
    Operand::Copy(local(l))
}

fn assign_const(l: usize) -> Statement {
    Statement::Assign(local(l), Rvalue::Use(Operand::Constant))
}

fn assign_copy(dst: usize, src: usize) -> Statement {
    Statement::Assign(local(dst), Rvalue::Use(copy(src)))
}

fn block(statements: Vec<Statement>, terminator: TerminatorKind) -> BasicBlockData {
    BasicBlockData { statements, terminator, is_cleanup: false }
}

fn cleanup_block(statements: Vec<Statement>, terminator: TerminatorKind) -> BasicBlockData {
    BasicBlockData { statements, terminator, is_cleanup: true }
}

fn goto(target: usize) -> TerminatorKind {
    TerminatorKind::Goto { target }
}

fn switch(discr: usize, targets: Vec<usize>, otherwise: usize) -> TerminatorKind {
    TerminatorKind::SwitchInt { discr: copy(discr), targets, otherwise }
}

fn call(destination: usize, target: Option<usize>, unwind: UnwindAction) -> TerminatorKind {
    TerminatorKind::Call {
        func: Operand::Constant,
        args: vec![],
        destination: local(destination),
        target,
        unwind,
    }
}

fn body(basic_blocks: Vec<BasicBlockData>, local_count: usize, debug_locals: Vec<usize>) -> Body {
    Body { basic_blocks, local_count, debug_locals }
}

fn after_pass(b: &Body) -> Body {
    let mut out = b.clone();
    AdcePass.run_pass(&mut out);
    out
}

/// A diamond whose arms only store to locals nobody reads: the stores become
/// no-ops and the branch becomes a `Goto` to the merge block.
#[test]
fn cfg_dead_stores_collapses_and_removes_stores() {
    let before = body(
        vec![
            block(vec![], switch(1, vec![1], 2)),
            block(vec![assign_const(2), assign_copy(3, 2)], goto(3)),
            block(vec![assign_const(2), assign_copy(3, 2)], goto(3)),
            block(vec![assign_const(0)], TerminatorKind::Return),
        ],
        4,
        vec![],
    );
    let mut expected = before.clone();
    expected.basic_blocks[0].terminator = goto(3);
    expected.basic_blocks[1].statements = vec![Statement::Nop, Statement::Nop];
    expected.basic_blocks[2].statements = vec![Statement::Nop, Statement::Nop];
    assert_eq!(after_pass(&before), expected);
}

/// After a collapse the merge block, whose store to the return place is
/// kept, is still reached from the entry; the emptied arms are not.
#[test]
fn kept_statement_stays_reachable_after_collapse() {
    let before = body(
        vec![
            block(vec![], switch(1, vec![1], 2)),
            block(vec![assign_const(2)], goto(3)),
            block(vec![], goto(3)),
            block(vec![assign_const(0)], TerminatorKind::Return),
        ],
        3,
        vec![],
    );
    let after = after_pass(&before);
    assert_eq!(after.basic_blocks[0].terminator, goto(3));
    assert_eq!(after.basic_blocks[3].statements, vec![assign_const(0)]);
    let adjacency: Vec<Vec<usize>> =
        after.basic_blocks.iter().map(|b| b.terminator.successors()).collect();
    let reached = reach_avoiding(&adjacency, 0, adjacency.len());
    assert_eq!(reached, vec![true, false, false, true]);
}

/// A call in one arm keeps the branch.
#[test]
fn dead_branch_call_is_kept() {
    let before = body(
        vec![
            block(vec![], switch(1, vec![1], 2)),
            block(vec![], call(0, Some(3), UnwindAction::Continue)),
            block(vec![], goto(3)),
            block(vec![], TerminatorKind::Return),
        ],
        2,
        vec![],
    );
    assert_eq!(after_pass(&before), before);
}

/// A drop in one arm keeps the branch.
#[test]
fn dead_branch_drop_is_kept() {
    let before = body(
        vec![
            block(vec![], switch(1, vec![1], 2)),
            block(
                vec![],
                TerminatorKind::Drop { place: local(2), target: 3, unwind: UnwindAction::Unreachable },
            ),
            block(vec![], goto(3)),
            block(vec![], TerminatorKind::Return),
        ],
        3,
        vec![],
    );
    assert_eq!(after_pass(&before), before);
}

/// The merge block reads what both arms store: nothing is dead.
#[test]
fn dead_branch_live_merge_is_kept() {
    let before = body(
        vec![
            block(vec![], switch(1, vec![1], 2)),
            block(vec![assign_const(2)], goto(3)),
            block(vec![assign_const(2)], goto(3)),
            block(vec![assign_copy(0, 2)], TerminatorKind::Return),
        ],
        3,
        vec![],
    );
    assert_eq!(after_pass(&before), before);
}

/// `a = x; b = a; c = a; return x`: the three copies are dead.
#[test]
fn dead_multi_use_removes_all_copies() {
    let before = body(
        vec![block(
            vec![assign_copy(2, 1), assign_copy(3, 2), assign_copy(4, 2), assign_copy(0, 1)],
            TerminatorKind::Return,
        )],
        5,
        vec![],
    );
    let mut expected = before.clone();
    expected.basic_blocks[0].statements =
        vec![Statement::Nop, Statement::Nop, Statement::Nop, assign_copy(0, 1)];
    assert_eq!(after_pass(&before), expected);
}

/// `a = x; return a.0`: the projection reads `a`.
#[test]
fn dead_projection_keeps_store() {
    let field = Place { local: 2, projection: vec![PlaceElem::Field(0)] };
    let before = body(
        vec![block(
            vec![
                assign_copy(2, 1),
                Statement::Assign(local(0), Rvalue::Use(Operand::Copy(field))),
            ],
            TerminatorKind::Return,
        )],
        3,
        vec![],
    );
    assert_eq!(after_pass(&before), before);
}

/// `a = x; b = a; a = y; return *b`: only the second store to `a` is dead.
#[test]
fn dead_ref_chain_removes_overwritten_store() {
    let deref_b = Place { local: 4, projection: vec![PlaceElem::Deref] };
    let before = body(
        vec![block(
            vec![
                assign_copy(3, 1),
                assign_copy(4, 3),
                assign_copy(3, 2),
                Statement::Assign(local(0), Rvalue::Use(Operand::Copy(deref_b))),
            ],
            TerminatorKind::Return,
        )],
        5,
        vec![],
    );
    let mut expected = before.clone();
    expected.basic_blocks[0].statements[2] = Statement::Nop;
    assert_eq!(after_pass(&before), expected);
}

/// `a = x; a = y; return *a`: the first store is dead.
#[test]
fn dead_first_removes_first_store() {
    let deref_a = Place { local: 3, projection: vec![PlaceElem::Deref] };
    let before = body(
        vec![block(
            vec![
                assign_copy(3, 1),
                assign_copy(3, 2),
                Statement::Assign(local(0), Rvalue::Use(Operand::Copy(deref_a))),
            ],
            TerminatorKind::Return,
        )],
        4,
        vec![],
    );
    let mut expected = before.clone();
    expected.basic_blocks[0].statements[0] = Statement::Nop;
    assert_eq!(after_pass(&before), expected);
}

/// A chain of copies that ends nowhere is dead from end to start.
#[test]
fn multiple_dead_stores_are_transitive() {
    let before = body(
        vec![block(
            vec![assign_copy(2, 1), assign_copy(3, 2), assign_copy(4, 3), assign_copy(0, 1)],
            TerminatorKind::Return,
        )],
        5,
        vec![],
    );
    let mut expected = before.clone();
    expected.basic_blocks[0].statements =
        vec![Statement::Nop, Statement::Nop, Statement::Nop, assign_copy(0, 1)];
    assert_eq!(after_pass(&before), expected);
}

/// Two empty diamonds in sequence both collapse.
#[test]
fn two_dead_branches_both_collapse() {
    let before = body(
        vec![
            block(vec![], switch(1, vec![1], 2)),
            block(vec![], goto(3)),
            block(vec![], goto(3)),
            block(vec![], switch(2, vec![4], 5)),
            block(vec![], goto(6)),
            block(vec![], goto(6)),
            block(vec![], TerminatorKind::Return),
        ],
        3,
        vec![],
    );
    let mut expected = before.clone();
    expected.basic_blocks[0].terminator = goto(3);
    expected.basic_blocks[3].terminator = goto(6);
    assert_eq!(after_pass(&before), expected);
}

/// Arms that each return a different value are not dead.
#[test]
fn nested_switch_is_kept() {
    let before = body(
        vec![
            block(vec![], switch(1, vec![1], 2)),
            block(vec![], switch(1, vec![3], 4)),
            block(vec![assign_const(0)], TerminatorKind::Return),
            block(vec![assign_const(0)], TerminatorKind::Return),
            block(vec![assign_const(0)], TerminatorKind::Return),
        ],
        2,
        vec![],
    );
    assert_eq!(after_pass(&before), before);
}

#[test]
fn multi_arm_switch_is_kept() {
    let before = body(
        vec![
            block(vec![], switch(1, vec![1, 1, 2], 3)),
            block(vec![assign_const(0)], TerminatorKind::Return),
            block(vec![assign_const(0)], TerminatorKind::Return),
            block(vec![assign_const(0)], TerminatorKind::Return),
        ],
        2,
        vec![],
    );
    assert_eq!(after_pass(&before), before);
}

/// A branch to itself, and a branch that leads back into it: both close a
/// loop that spins while the value is not zero, so both are kept.
#[test]
fn target_self_loop_is_kept() {
    let before = body(
        vec![
            block(vec![], goto(1)),
            block(vec![], switch(1, vec![2], 1)),
            block(vec![], switch(1, vec![3], 1)),
            block(vec![], TerminatorKind::Return),
        ],
        2,
        vec![],
    );
    assert_eq!(after_pass(&before), before);
}

/// A diamond with empty arms inside a loop: its branch lies on the loop, so
/// it is kept, and so is the branch that closes the loop.
#[test]
fn branch_inside_loop_is_kept() {
    let before = body(
        vec![
            block(vec![], goto(1)),
            block(vec![], switch(1, vec![2], 3)),
            block(vec![], goto(4)),
            block(vec![], goto(4)),
            block(vec![], switch(1, vec![1], 5)),
            block(vec![], TerminatorKind::Return),
        ],
        2,
        vec![],
    );
    assert_eq!(after_pass(&before), before);
}

/// A self loop with an empty exit arm is kept too.
#[test]
fn self_loop_branch_is_kept() {
    let before = body(
        vec![
            block(vec![], goto(1)),
            block(vec![], switch(1, vec![2], 1)),
            block(vec![], TerminatorKind::Return),
        ],
        2,
        vec![],
    );
    assert_eq!(after_pass(&before), before);
}

/// A loop whose body is an inert block: the branch that closes it is kept,
/// and so is the dead store in the loop body, which stays a no-op.
#[test]
fn loop_through_inert_block_is_kept() {
    let before = body(
        vec![
            block(vec![], goto(1)),
            block(vec![], switch(1, vec![3], 2)),
            block(vec![assign_const(2)], goto(1)),
            block(vec![], TerminatorKind::Return),
        ],
        3,
        vec![],
    );
    let mut expected = before.clone();
    expected.basic_blocks[2].statements = vec![Statement::Nop];
    assert_eq!(after_pass(&before), expected);
}

/// A branch on the result of a call with an empty arm collapses; the call
/// stays. No CFG cleanup runs, so the emptied arm stays in the body: it is no
/// longer reached from the entry, which runs call, `Goto`, return.
#[test]
fn dead_branch3_collapses_after_call() {
    let before = body(
        vec![
            block(vec![], call(1, Some(1), UnwindAction::Continue)),
            block(vec![], switch(1, vec![2], 3)),
            block(vec![], goto(3)),
            block(vec![], TerminatorKind::Return),
        ],
        2,
        vec![],
    );
    let after = after_pass(&before);
    let mut expected = before.clone();
    expected.basic_blocks[1].terminator = goto(3);
    assert_eq!(after, expected);
    let adjacency: Vec<Vec<usize>> =
        after.basic_blocks.iter().map(|b| b.terminator.successors()).collect();
    assert_eq!(reach_avoiding(&adjacency, 0, adjacency.len()), vec![true, true, false, true]);
}

/// A diamond with an empty arm inside the cleanup region collapses into a
/// `Goto` that stays inside it: every plain jump still joins two cleanup
/// blocks.
#[test]
fn cleanup_diamond_collapses_within_cleanup() {
    let before = body(
        vec![
            block(vec![], call(1, Some(1), UnwindAction::Cleanup(2))),
            block(vec![], TerminatorKind::Return),
            cleanup_block(vec![], switch(1, vec![3], 4)),
            cleanup_block(vec![], goto(4)),
            cleanup_block(vec![], TerminatorKind::UnwindResume),
        ],
        2,
        vec![],
    );
    let after = after_pass(&before);
    let mut expected = before.clone();
    expected.basic_blocks[2].terminator = goto(4);
    assert_eq!(after, expected);
    for (b, data) in after.basic_blocks.iter().enumerate() {
        let plain_jump = matches!(
            data.terminator,
            TerminatorKind::Goto { .. } | TerminatorKind::SwitchInt { .. }
        );
        if plain_jump {
            for target in data.terminator.successors() {
                assert_eq!(after.basic_blocks[target].is_cleanup, after.basic_blocks[b].is_cleanup);
            }
        }
    }
}

/// An arm that calls with a cleanup path is kept.
#[test]
fn dead_branch_unwind_is_kept() {
    let before = body(
        vec![
            block(vec![], call(1, Some(1), UnwindAction::Continue)),
            block(vec![], switch(1, vec![2], 3)),
            block(vec![], call(2, Some(3), UnwindAction::Cleanup(4))),
            block(vec![], TerminatorKind::Return),
            cleanup_block(
                vec![],
                TerminatorKind::Drop { place: local(2), target: 5, unwind: UnwindAction::Terminate },
            ),
            cleanup_block(vec![], TerminatorKind::UnwindResume),
        ],
        3,
        vec![],
    );
    assert_eq!(after_pass(&before), before);
}

/// Stores to a local that debug information names are kept, and so is the
/// branch around them.
#[test]
fn dead_branch_with_debuginfo_is_kept() {
    let before = body(
        vec![
            block(vec![], switch(1, vec![1], 2)),
            block(vec![assign_const(2)], goto(3)),
            block(vec![assign_const(2)], goto(3)),
            block(vec![assign_const(0)], TerminatorKind::Return),
        ],
        3,
        vec![1, 2],
    );
    assert_eq!(after_pass(&before), before);
}

/// Empty arms collapse.
#[test]
fn dead_branch2_collapses() {
    let before = body(
        vec![
            block(vec![], switch(1, vec![1], 2)),
            block(vec![], goto(3)),
            block(vec![], goto(3)),
            block(vec![assign_const(0)], TerminatorKind::Return),
        ],
        2,
        vec![1],
    );
    let mut expected = before.clone();
    expected.basic_blocks[0].terminator = goto(3);
    assert_eq!(after_pass(&before), expected);
}

/// Storage markers and no-ops do not keep a branch.
#[test]
fn storage_markers_do_not_keep_branch() {
    let before = body(
        vec![
            block(vec![], switch(1, vec![1], 2)),
            block(vec![Statement::StorageLive(2), Statement::StorageDead(2)], goto(3)),
            block(vec![Statement::Nop], goto(3)),
            block(vec![], TerminatorKind::Return),
        ],
        3,
        vec![],
    );
    let mut expected = before.clone();
    expected.basic_blocks[0].terminator = goto(3);
    assert_eq!(after_pass(&before), expected);
}

/// A store to a borrowed local is kept.
#[test]
fn borrowed_local_store_is_kept() {
    let before = body(
        vec![block(
            vec![
                assign_const(1),
                Statement::Assign(local(2), Rvalue::Ref(local(1))),
                assign_const(0),
            ],
            TerminatorKind::Return,
        )],
        3,
        vec![],
    );
    assert_eq!(after_pass(&before), before);
}

/// A call, and a drop, on their own are never removed.
#[test]
fn calls_and_drops_are_kept() {
    let call_body = body(
        vec![block(vec![], call(0, Some(1), UnwindAction::Continue)), block(vec![], TerminatorKind::Return)],
        1,
        vec![],
    );
    assert_eq!(after_pass(&call_body), call_body);
    let drop_body = body(
        vec![
            block(
                vec![],
                TerminatorKind::Drop { place: local(1), target: 1, unwind: UnwindAction::Unreachable },
            ),
            block(vec![], TerminatorKind::Return),
        ],
        2,
        vec![],
    );
    assert_eq!(after_pass(&drop_body), drop_body);
}

/// Inline assembly that may jump to either of two empty arms is kept, and so
/// is a store it reads.
#[test]
fn asm_goto_with_empty_arms_is_kept() {
    let before = body(
        vec![
            block(
                vec![assign_const(1)],
                TerminatorKind::InlineAsm {
                    inputs: vec![copy(1)],
                    outputs: vec![],
                    targets: vec![1, 2],
                    unwind: UnwindAction::Unreachable,
                },
            ),
            block(vec![assign_const(2)], goto(3)),
            block(vec![], goto(3)),
            block(vec![], TerminatorKind::Return),
        ],
        3,
        vec![],
    );
    let mut expected = before.clone();
    expected.basic_blocks[1].statements = vec![Statement::Nop];
    assert_eq!(after_pass(&before), expected);
}

/// Inline assembly that writes `_2` on its way to its target makes an
/// earlier store to `_2` dead, unless the unwind edge, where nothing is
/// written, leads to a read of it.
#[test]
fn asm_output_makes_earlier_store_dead() {
    let asm_writes = |unwind: UnwindAction| TerminatorKind::InlineAsm {
        inputs: vec![],
        outputs: vec![local(2)],
        targets: vec![1],
        unwind,
    };
    let before = body(
        vec![
            block(vec![assign_const(2)], asm_writes(UnwindAction::Unreachable)),
            block(vec![assign_copy(0, 2)], TerminatorKind::Return),
        ],
        3,
        vec![],
    );
    let mut expected = before.clone();
    expected.basic_blocks[0].statements = vec![Statement::Nop];
    assert_eq!(after_pass(&before), expected);

    let with_unwind = body(
        vec![
            block(vec![assign_const(2)], asm_writes(UnwindAction::Cleanup(2))),
            block(vec![assign_copy(0, 2)], TerminatorKind::Return),
            cleanup_block(
                vec![],
                TerminatorKind::Drop { place: local(2), target: 3, unwind: UnwindAction::Terminate },
            ),
            cleanup_block(vec![], TerminatorKind::UnwindResume),
        ],
        3,
        vec![],
    );
    assert_eq!(after_pass(&with_unwind), with_unwind);
}

/// A store that is only read through an assignment that exposes a pointer's
/// provenance is kept: that assignment cannot be removed.
#[test]
fn expose_provenance_keeps_its_operand() {
    let before = body(
        vec![block(
            vec![
                assign_copy(2, 1),
                Statement::Assign(local(3), Rvalue::ExposeProvenance(copy(2))),
                assign_const(0),
            ],
            TerminatorKind::Return,
        )],
        4,
        vec![],
    );
    assert_eq!(after_pass(&before), before);
}

/// Statements in blocks that the entry cannot reach are left alone.
#[test]
fn unreachable_block_statements_are_kept() {
    let before = body(
        vec![
            block(vec![], TerminatorKind::Return),
            block(vec![assign_const(1)], TerminatorKind::Return),
        ],
        2,
        vec![],
    );
    assert_eq!(after_pass(&before), before);
}

/// A store just before a statement that reads it is live.
#[test]
fn store_read_by_next_statement_is_kept() {
    let before = body(
        vec![block(vec![assign_copy(2, 1), assign_copy(0, 2)], TerminatorKind::Return)],
        3,
        vec![],
    );
    assert_eq!(after_pass(&before), before);
}

/// A branch whose arms loop back to it cannot reach an exit and is left alone.
#[test]
fn branch_in_endless_loop_is_kept() {
    let before = body(
        vec![
            block(vec![], switch(1, vec![1], 2)),
            block(vec![], goto(0)),
            block(vec![], goto(0)),
        ],
        2,
        vec![],
    );
    assert_eq!(after_pass(&before), before);
}

/// `x = 10; y = 20; return y` without debug information on `x`: the store to
/// `x` goes.
#[test]
fn dead_store_is_removed() {
    let before = body(
        vec![block(vec![assign_const(1), assign_const(2), assign_copy(0, 2)], TerminatorKind::Return)],
        3,
        vec![2],
    );
    let mut expected = before.clone();
    expected.basic_blocks[0].statements[0] = Statement::Nop;
    assert_eq!(after_pass(&before), expected);
}

/// A call that never returns is an exit of its own; the branch around an
/// empty arm next to it still collapses onto the shared merge block.
#[test]
fn diverging_call_is_an_exit() {
    let before = body(
        vec![
            block(vec![], switch(1, vec![1], 2)),
            block(vec![], goto(3)),
            block(vec![], goto(3)),
            block(vec![], switch(1, vec![4], 5)),
            block(vec![], call(0, None, UnwindAction::Continue)),
            block(vec![], TerminatorKind::Return),
        ],
        2,
        vec![],
    );
    let mut expected = before.clone();
    expected.basic_blocks[0].terminator = goto(3);
    assert_eq!(after_pass(&before), expected);
}
