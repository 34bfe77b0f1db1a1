//! Small functions whose MIR exercises the pass: dead stores, dead branches,
//! and the effects (calls, drops, unwinding) that must survive it. Each is
//! given here with what it computes.

use vstd::prelude::*;

verus! {

/// A value that the examples drop.
pub struct Droppable;

pub fn side_effect() {
}

pub fn call_side_effect() {
    side_effect();
}

/// Both stores in each arm are dead; the result is always 0.
pub fn cfg_dead_stores(x: u8) -> (r: i32)
    ensures
        r == 0,
{
    let a: i32;
    let b: i32;
    if x == 1 {
        a = 10;
        b = a;
    } else {
        a = 20;
        b = a;
    }
    0
}

pub fn dead_branch(flag: bool) -> (r: i32)
    ensures
        r == 5,
{
    let x: i32;
    if flag {
        x = 10;
    } else {
        x = 20;
    }
    5
}

pub fn dead_branch2(flag: bool) -> (r: i32)
    ensures
        r == 5,
{
    if flag {
    } else {
    }
    5
}

pub fn cond() -> (r: bool)
    ensures
        !r,
{
    false
}

pub fn dead_branch3() {
    let condition = cond();
    if condition {
    }
}

/// Calls `side_effect` when `x` is 1; the call keeps the branch alive.
pub fn dead_branch_call(x: u8) {
    if x == 1 {
        side_effect();
    }
}

/// Drops `value` in one arm; the drop keeps the branch alive.
pub fn dead_branch_drop(x: u8, value: Droppable) {
    if x == 1 {
        let dropped = value;
    }
}

pub fn dead_branch_live_merge(x: u8) -> (r: i32)
    ensures
        r == if x == 1 {
            10i32
        } else {
            20i32
        },
{
    let value: i32;
    if x == 1 {
        value = 10;
    } else {
        value = 20;
    }
    value
}

pub fn make_droppable() -> Droppable {
    Droppable
}

pub fn dead_branch_unwind() {
    let condition = cond();
    if condition {
        let value = make_droppable();
    }
}

pub fn dead_multi_use(x: i32) -> (r: i32)
    ensures
        r == x,
{
    let a = x;
    let b = a;
    let c = a;
    x
}

pub fn dead_projection(x: (i32, i32)) -> (r: i32)
    ensures
        r == x.0,
{
    let a = x;
    a.0
}

pub fn dead_ref_chain<'a>(x: &'a i32, y: &'a i32) -> (r: i32)
    ensures
        r == *x,
{
    let mut a = x;
    let b = a;
    a = y;
    *b
}

pub fn dead_first<'a>(x: &'a i32, y: &'a i32) -> (r: i32)
    ensures
        r == *y,
{
    let mut a = x;
    a = y;
    *a
}

pub fn dont_opt(x: Vec<bool>) {
    let dropped = x;
}

pub fn cannot_opt_generic<T>(x: T) {
    let dropped = x;
}

pub fn multi_arm(x: u8) -> (r: u8)
    ensures
        r == if x == 0 || x == 1 {
            10u8
        } else if x == 2 {
            20u8
        } else {
            30u8
        },
{
    match x {
        0 | 1 => 10,
        2 => 20,
        _ => 30,
    }
}

pub fn multiple_dead_stores(x: i32) -> (r: i32)
    ensures
        r == x,
{
    let a = x;
    let b = a;
    let c = b;
    x
}

pub fn nested_switch(x: u8) -> (r: u8)
    ensures
        r == if x == 0 {
            3u8
        } else {
            2u8
        },
{
    if x == 0 {
        if x == 0 {
            3
        } else {
            4
        }
    } else {
        2
    }
}

/// Branches back to itself until `val` is 0; for any other `val` it never
/// returns, so only `val == 0` is admitted.
pub fn target_self(val: i32)
    requires
        val == 0,
{
    let mut past_first = false;
    loop
        invariant
            val == 0,
        decreases (if past_first {
            0int
        } else {
            1int
        }),
    {
        if !past_first {
            if val == 0 {
                past_first = true;
            }
        } else if val == 0 {
            return ;
        }
    }
}

pub fn two_dead_branches(x: u8, y: u8) {
    if x == 1 {
    } else {
    }
    if y == 1 {
    } else {
    }
}

/// Picks 10 or 20 by `flag`: the diamond whose post-dominator is its merge.
pub fn choose_branch(flag: bool) -> (r: i32)
    ensures
        r == if flag {
            10i32
        } else {
            20i32
        },
{
    let x: i32;
    if flag {
        x = 10;
    } else {
        x = 20;
    }
    x
}

} // verus!
