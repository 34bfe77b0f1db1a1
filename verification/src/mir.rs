//! A model of MIR bodies: basic blocks of statements ending in a terminator.
//!
//! It holds, as plain values, what the dead code elimination reads: which
//! locals a statement or terminator reads and writes, and the control flow
//! edges between blocks.

use vstd::prelude::*;

verus! {

/// One step of a place projection.
#[derive(Clone, Copy, Debug, PartialEq, Eq, Structural)]
pub enum PlaceElem {
    /// `*p`
    Deref,
    /// `p.n`
    Field(usize),
    /// `p[l]` where `l` is a local holding the index
    Index(usize),
}

/// A memory location: a local with a (possibly empty) projection.
#[derive(Clone, Debug, PartialEq, Eq)]
pub struct Place {
    pub local: usize,
    pub projection: Vec<PlaceElem>,
}

#[derive(Clone, Debug, PartialEq, Eq)]
pub enum Operand {
    Copy(Place),
    Move(Place),
    Constant,
}

#[derive(Clone, Debug, PartialEq, Eq)]
pub enum Rvalue {
    Use(Operand),
    Ref(Place),
    RawPtr(Place),
    UnaryOp(Operand),
    BinaryOp(Operand, Operand),
    Discriminant(Place),
    /// A pointer-to-integer cast that exposes the pointer's provenance.
    ExposeProvenance(Operand),
}

#[derive(Clone, Debug, PartialEq, Eq)]
pub enum Statement {
    Nop,
    StorageLive(usize),
    StorageDead(usize),
    Assign(Place, Rvalue),
    SetDiscriminant(Place),
    Deinit(Place),
}

/// What happens when a terminator unwinds.
#[derive(Clone, Copy, Debug, PartialEq, Eq, Structural)]
pub enum UnwindAction {
    Continue,
    Unreachable,
    Terminate,
    Cleanup(usize),
}

#[derive(Clone, Debug, PartialEq, Eq)]
pub enum TerminatorKind {
    Goto { target: usize },
    SwitchInt { discr: Operand, targets: Vec<usize>, otherwise: usize },
    Return,
    Unreachable,
    UnwindResume,
    UnwindTerminate,
    Call {
        func: Operand,
        args: Vec<Operand>,
        destination: Place,
        target: Option<usize>,
        unwind: UnwindAction,
    },
    Drop { place: Place, target: usize, unwind: UnwindAction },
    Assert { cond: Operand, target: usize, unwind: UnwindAction },
    /// Inline assembly reading `inputs` and writing `outputs`, which may jump
    /// to any of `targets` (the first one is where it falls through). Like a
    /// call's destination, the outputs are written only when it goes on to
    /// one of its targets, not when it unwinds.
    InlineAsm {
        inputs: Vec<Operand>,
        outputs: Vec<Place>,
        targets: Vec<usize>,
        unwind: UnwindAction,
    },
}

#[derive(Clone, Debug, PartialEq, Eq)]
pub struct BasicBlockData {
    pub statements: Vec<Statement>,
    pub terminator: TerminatorKind,
    /// Whether the block lies on an unwinding (cleanup) path.
    pub is_cleanup: bool,
}

/// A function body. Block 0 is the entry block; local 0 is the return place.
#[derive(Clone, Debug, PartialEq, Eq)]
pub struct Body {
    pub basic_blocks: Vec<BasicBlockData>,
    /// The number of locals, `_0` included.
    pub local_count: usize,
    /// The locals that debug information refers to.
    pub debug_locals: Vec<usize>,
}

pub open spec fn unwind_targets(u: UnwindAction) -> Seq<usize> {
    match u {
        UnwindAction::Cleanup(bb) => seq![bb],
        _ => seq![],
    }
}

pub open spec fn option_targets(t: Option<usize>) -> Seq<usize> {
    match t {
        Some(bb) => seq![bb],
        None => seq![],
    }
}

impl TerminatorKind {
    /// The blocks control can pass to, in order, with repetitions.
    pub open spec fn spec_successors(&self) -> Seq<usize> {
        match self {
            TerminatorKind::Goto { target } => seq![*target],
            TerminatorKind::SwitchInt { targets, otherwise, .. } => targets@.push(*otherwise),
            TerminatorKind::Return => seq![],
            TerminatorKind::Unreachable => seq![],
            TerminatorKind::UnwindResume => seq![],
            TerminatorKind::UnwindTerminate => seq![],
            TerminatorKind::Call { target, unwind, .. } => option_targets(*target) + unwind_targets(
                *unwind,
            ),
            TerminatorKind::Drop { target, unwind, .. } => seq![*target] + unwind_targets(*unwind),
            TerminatorKind::Assert { target, unwind, .. } => seq![*target] + unwind_targets(
                *unwind,
            ),
            TerminatorKind::InlineAsm { targets, unwind, .. } => targets@ + unwind_targets(*unwind),
        }
    }

    pub fn successors(&self) -> (res: Vec<usize>)
        ensures
            res@ == self.spec_successors(),
    {
        let mut res: Vec<usize> = Vec::new();
        match self {
            TerminatorKind::Goto { target } => {
                res.push(*target);
            },
            TerminatorKind::SwitchInt { targets, otherwise, .. } => {
                let mut i: usize = 0;
                while i < targets.len()
                    invariant
                        i <= targets.len(),
                        res@ == targets@.take(i as int),
                    decreases targets.len() - i,
                {
                    res.push(targets[i]);
                    i = i + 1;
                    assert(res@ == targets@.take(i as int));
                }
                assert(targets@.take(targets.len() as int) == targets@);
                res.push(*otherwise);
            },
            TerminatorKind::Return => {},
            TerminatorKind::Unreachable => {},
            TerminatorKind::UnwindResume => {},
            TerminatorKind::UnwindTerminate => {},
            TerminatorKind::Call { target, unwind, .. } => {
                if let Some(t) = target {
                    res.push(*t);
                }
                if let UnwindAction::Cleanup(u) = unwind {
                    res.push(*u);
                }
            },
            TerminatorKind::Drop { target, unwind, .. } => {
                res.push(*target);
                if let UnwindAction::Cleanup(u) = unwind {
                    res.push(*u);
                }
            },
            TerminatorKind::Assert { target, unwind, .. } => {
                res.push(*target);
                if let UnwindAction::Cleanup(u) = unwind {
                    res.push(*u);
                }
            },
            TerminatorKind::InlineAsm { targets, unwind, .. } => {
                let mut i: usize = 0;
                while i < targets.len()
                    invariant
                        i <= targets.len(),
                        res@ == targets@.take(i as int),
                    decreases targets.len() - i,
                {
                    res.push(targets[i]);
                    i = i + 1;
                    assert(res@ == targets@.take(i as int));
                }
                assert(targets@.take(targets.len() as int) == targets@);
                if let UnwindAction::Cleanup(u) = unwind {
                    res.push(*u);
                }
                assert(res@ =~= targets@ + unwind_targets(*unwind));
            },
        }
        res
    }

    pub fn is_switch_int(&self) -> (res: bool)
        ensures
            res == (self is SwitchInt),
    {
        match self {
            TerminatorKind::SwitchInt { .. } => true,
            _ => false,
        }
    }

    pub fn is_goto(&self) -> (res: bool)
        ensures
            res == (self is Goto),
    {
        match self {
            TerminatorKind::Goto { .. } => true,
            _ => false,
        }
    }
}

impl Place {
    /// Whether the place goes through a dereference.
    pub open spec fn spec_is_indirect(&self) -> bool {
        self.projection@.contains(PlaceElem::Deref)
    }

    pub open spec fn spec_as_local(&self) -> Option<usize> {
        if self.projection@.len() == 0 {
            Some(self.local)
        } else {
            None
        }
    }

    pub fn is_indirect(&self) -> (res: bool)
        ensures
            res == self.spec_is_indirect(),
    {
        let mut i: usize = 0;
        while i < self.projection.len()
            invariant
                i <= self.projection.len(),
                forall|j: int| 0 <= j < i ==> self.projection@[j] != PlaceElem::Deref,
            decreases self.projection.len() - i,
        {
            match self.projection[i] {
                PlaceElem::Deref => {
                    return true;
                },
                _ => {},
            }
            i = i + 1;
        }
        false
    }

    pub fn as_local(&self) -> (res: Option<usize>)
        ensures
            res == self.spec_as_local(),
    {
        if self.projection.len() == 0 {
            Some(self.local)
        } else {
            None
        }
    }
}

impl Rvalue {
    /// Whether an assignment of this value may be dropped when its
    /// destination is dead: everything except exposing provenance.
    pub open spec fn spec_is_safe_to_remove(&self) -> bool {
        !(self is ExposeProvenance)
    }

    pub fn is_safe_to_remove(&self) -> (res: bool)
        ensures
            res == self.spec_is_safe_to_remove(),
    {
        match self {
            Rvalue::ExposeProvenance(_) => false,
            _ => true,
        }
    }

    pub fn is_use(&self) -> (res: bool)
        ensures
            res == (self is Use),
    {
        match self {
            Rvalue::Use(_) => true,
            _ => false,
        }
    }
}

/// A place is well formed when its locals exist.
pub open spec fn place_wf(p: Place, n_locals: nat) -> bool {
    &&& p.local < n_locals
    &&& forall|i: int|
        0 <= i < p.projection@.len() ==> (#[trigger] p.projection@[i] matches PlaceElem::Index(l)
            ==> l < n_locals)
}

pub open spec fn operand_wf(o: Operand, n_locals: nat) -> bool {
    match o {
        Operand::Copy(p) => place_wf(p, n_locals),
        Operand::Move(p) => place_wf(p, n_locals),
        Operand::Constant => true,
    }
}

pub open spec fn rvalue_wf(r: Rvalue, n_locals: nat) -> bool {
    match r {
        Rvalue::Use(o) => operand_wf(o, n_locals),
        Rvalue::Ref(p) => place_wf(p, n_locals),
        Rvalue::RawPtr(p) => place_wf(p, n_locals),
        Rvalue::UnaryOp(o) => operand_wf(o, n_locals),
        Rvalue::BinaryOp(a, b) => operand_wf(a, n_locals) && operand_wf(b, n_locals),
        Rvalue::Discriminant(p) => place_wf(p, n_locals),
        Rvalue::ExposeProvenance(o) => operand_wf(o, n_locals),
    }
}

pub open spec fn statement_wf(s: Statement, n_locals: nat) -> bool {
    match s {
        Statement::Nop => true,
        Statement::StorageLive(l) => l < n_locals,
        Statement::StorageDead(l) => l < n_locals,
        Statement::Assign(p, r) => place_wf(p, n_locals) && rvalue_wf(r, n_locals),
        Statement::SetDiscriminant(p) => place_wf(p, n_locals),
        Statement::Deinit(p) => place_wf(p, n_locals),
    }
}

pub open spec fn terminator_wf(t: TerminatorKind, n_locals: nat, n_blocks: nat) -> bool {
    &&& forall|i: int|
        0 <= i < t.spec_successors().len() ==> #[trigger] t.spec_successors()[i] < n_blocks
    &&& match t {
        TerminatorKind::SwitchInt { discr, .. } => operand_wf(discr, n_locals),
        TerminatorKind::Call { func, args, destination, .. } => {
            &&& operand_wf(func, n_locals)
            &&& forall|i: int| 0 <= i < args@.len() ==> operand_wf(#[trigger] args@[i], n_locals)
            &&& place_wf(destination, n_locals)
        },
        TerminatorKind::Drop { place, .. } => place_wf(place, n_locals),
        TerminatorKind::Assert { cond, .. } => operand_wf(cond, n_locals),
        TerminatorKind::InlineAsm { inputs, outputs, .. } => {
            &&& forall|i: int| 0 <= i < inputs@.len() ==> operand_wf(#[trigger] inputs@[i], n_locals)
            &&& forall|i: int| 0 <= i < outputs@.len() ==> place_wf(#[trigger] outputs@[i], n_locals)
        },
        _ => true,
    }
}

pub open spec fn block_wf(b: BasicBlockData, n_locals: nat, n_blocks: nat) -> bool {
    &&& forall|i: int|
        0 <= i < b.statements@.len() ==> statement_wf(#[trigger] b.statements@[i], n_locals)
    &&& terminator_wf(b.terminator, n_locals, n_blocks)
}

impl Body {
    /// A well-formed body: an entry block exists, every edge leads to a
    /// block of the body, every local named exists, and one more block index
    /// than there are blocks still fits a `usize`.
    pub open spec fn wf(&self) -> bool {
        &&& 0 < self.basic_blocks@.len() < usize::MAX
        &&& 0 < self.local_count
        &&& forall|b: int|
            0 <= b < self.basic_blocks@.len() ==> block_wf(
                #[trigger] self.basic_blocks@[b],
                self.local_count as nat,
                self.basic_blocks@.len(),
            )
        &&& forall|i: int|
            0 <= i < self.debug_locals@.len() ==> #[trigger] self.debug_locals@[i]
                < self.local_count
    }

    /// The successors of block `b`.
    pub open spec fn succs(&self, b: int) -> Seq<usize> {
        self.basic_blocks@[b].terminator.spec_successors()
    }
}

/// A terminator names block `x`: as a jump target, a call's return target,
/// or the cleanup block it unwinds to.
pub open spec fn names_block(t: TerminatorKind, x: usize) -> bool {
    match t {
        TerminatorKind::Goto { target } => target == x,
        TerminatorKind::SwitchInt { targets, otherwise, .. } => targets@.contains(x) || otherwise
            == x,
        TerminatorKind::Call { target, unwind, .. } => target == Some(x) || unwind
            == UnwindAction::Cleanup(x),
        TerminatorKind::Drop { target, unwind, .. } => target == x || unwind == UnwindAction::Cleanup(
            x,
        ),
        TerminatorKind::Assert { target, unwind, .. } => target == x || unwind
            == UnwindAction::Cleanup(x),
        TerminatorKind::InlineAsm { targets, unwind, .. } => targets@.contains(x) || unwind
            == UnwindAction::Cleanup(x),
        _ => false,
    }
}

/// The successors of a terminator are exactly the blocks it names: every
/// jump target and every cleanup block it unwinds to is a successor, and
/// nothing else is. For a call, a drop or an assert the normal target comes
/// first, then the cleanup block, if any.
pub proof fn lemma_successors_are_named_blocks(t: TerminatorKind, x: usize)
    ensures
        t.spec_successors().contains(x) == names_block(t, x),
        t matches TerminatorKind::Assert { target, unwind, .. } ==> t.spec_successors() == (
        match unwind {
            UnwindAction::Cleanup(u) => seq![target, u],
            _ => seq![target],
        }),
        t matches TerminatorKind::Drop { target, unwind, .. } ==> t.spec_successors() == (
        match unwind {
            UnwindAction::Cleanup(u) => seq![target, u],
            _ => seq![target],
        }),
        t matches TerminatorKind::Call { target: Some(tg), unwind, .. } ==> t.spec_successors() == (
        match unwind {
            UnwindAction::Cleanup(u) => seq![tg, u],
            _ => seq![tg],
        }),
{
    let succ = t.spec_successors();
    match t {
        TerminatorKind::Goto { target } => {
            if succ.contains(x) {
                assert(succ[0] == x);
            } else if target == x {
                assert(succ[0] == x);
            }
        },
        TerminatorKind::SwitchInt { targets, otherwise, .. } => {
            if succ.contains(x) {
                let k = choose|k: int| 0 <= k < succ.len() && succ[k] == x;
                if k < targets@.len() {
                    assert(targets@[k] == x);
                }
            }
            if targets@.contains(x) {
                let k = choose|k: int| 0 <= k < targets@.len() && targets@[k] == x;
                assert(succ[k] == x);
            }
            if otherwise == x {
                assert(succ[targets@.len() as int] == x);
            }
        },
        TerminatorKind::Call { target, unwind, .. } => {
            match target {
                Some(tg) => match unwind {
                    UnwindAction::Cleanup(u) => {
                        assert(succ =~= seq![tg, u]);
                        if succ.contains(x) {
                            let k = choose|k: int| 0 <= k < succ.len() && succ[k] == x;
                        }
                        assert(succ[0] == tg && succ[1] == u);
                    },
                    _ => {
                        assert(succ =~= seq![tg]);
                        if succ.contains(x) {
                            let k = choose|k: int| 0 <= k < succ.len() && succ[k] == x;
                        }
                        assert(succ[0] == tg);
                    },
                },
                None => match unwind {
                    UnwindAction::Cleanup(u) => {
                        assert(succ =~= seq![u]);
                        if succ.contains(x) {
                            let k = choose|k: int| 0 <= k < succ.len() && succ[k] == x;
                        }
                        assert(succ[0] == u);
                    },
                    _ => {
                        assert(succ =~= Seq::<usize>::empty());
                    },
                },
            }
        },
        TerminatorKind::Drop { target, unwind, .. } => {
            match unwind {
                UnwindAction::Cleanup(u) => {
                    assert(succ =~= seq![target, u]);
                    if succ.contains(x) {
                        let k = choose|k: int| 0 <= k < succ.len() && succ[k] == x;
                    }
                    assert(succ[0] == target && succ[1] == u);
                },
                _ => {
                    assert(succ =~= seq![target]);
                    if succ.contains(x) {
                        let k = choose|k: int| 0 <= k < succ.len() && succ[k] == x;
                    }
                    assert(succ[0] == target);
                },
            }
        },
        TerminatorKind::Assert { target, unwind, .. } => {
            match unwind {
                UnwindAction::Cleanup(u) => {
                    assert(succ =~= seq![target, u]);
                    if succ.contains(x) {
                        let k = choose|k: int| 0 <= k < succ.len() && succ[k] == x;
                    }
                    assert(succ[0] == target && succ[1] == u);
                },
                _ => {
                    assert(succ =~= seq![target]);
                    if succ.contains(x) {
                        let k = choose|k: int| 0 <= k < succ.len() && succ[k] == x;
                    }
                    assert(succ[0] == target);
                },
            }
        },
        TerminatorKind::InlineAsm { targets, unwind, .. } => {
            if succ.contains(x) {
                let k = choose|k: int| 0 <= k < succ.len() && succ[k] == x;
                if k < targets@.len() {
                    assert(targets@[k] == x);
                }
            }
            if targets@.contains(x) {
                let k = choose|k: int| 0 <= k < targets@.len() && targets@[k] == x;
                assert(succ[k] == x);
            }
            if unwind == UnwindAction::Cleanup(x) {
                assert(succ[targets@.len() as int] == x);
            }
        },
        _ => {},
    }
}

} // verus!
