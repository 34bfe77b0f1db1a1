use mir_adce::programs::{
    call_side_effect, cannot_opt_generic, cfg_dead_stores, choose_branch, cond, dead_branch,
    dead_branch2, dead_branch3, dead_branch_call, dead_branch_drop, dead_branch_live_merge,
    dead_branch_unwind, dead_first, dead_multi_use, dead_projection, dead_ref_chain, dont_opt,
    make_droppable, multi_arm, multiple_dead_stores, nested_switch, side_effect, target_self,
    two_dead_branches,
};

#[test]
fn programs_compute_their_values() {
    assert_eq!(cfg_dead_stores(1), 0);
    assert_eq!(cfg_dead_stores(7), 0);
    assert_eq!(dead_branch(true), 5);
    assert_eq!(dead_branch2(false), 5);
    assert!(!cond());
    assert_eq!(dead_branch_live_merge(1), 10);
    assert_eq!(dead_branch_live_merge(2), 20);
    assert_eq!(dead_multi_use(42), 42);
    assert_eq!(dead_projection((10, 20)), 10);
    assert_eq!(dead_ref_chain(&10, &20), 10);
    assert_eq!(dead_first(&10, &20), 20);
    assert_eq!(multiple_dead_stores(42), 42);
    assert_eq!(multi_arm(0), 10);
    assert_eq!(multi_arm(1), 10);
    assert_eq!(multi_arm(2), 20);
    assert_eq!(multi_arm(200), 30);
    assert_eq!(nested_switch(0), 3);
    assert_eq!(nested_switch(9), 2);
    assert_eq!(choose_branch(true), 10);
    assert_eq!(choose_branch(false), 20);
}

#[test]
fn programs_with_effects_run() {
    side_effect();
    call_side_effect();
    dead_branch3();
    dead_branch_call(1);
    dead_branch_call(0);
    dead_branch_drop(1, make_droppable());
    dead_branch_unwind();
    dont_opt(vec![true]);
    cannot_opt_generic(42);
    target_self(0);
    two_dead_branches(1, 1);
}
