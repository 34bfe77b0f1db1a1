//! Transitive liveness of locals, computed backwards to a least fixpoint.
//!
//! A local is live at a point when a later statement or terminator may read
//! its value. Liveness is transitive: a store to a local that is not live,
//! not borrowed, not referred to by debug information and not written through
//! a pointer is itself dead, so the locals it reads do not become live.

use vstd::prelude::*;
use crate::counting::{count_upto, lemma_count_monotone, lemma_count_strict};
use crate::mir::{
    block_wf, operand_wf, place_wf, rvalue_wf, statement_wf, terminator_wf, BasicBlockData, Body,
    Operand, Place, PlaceElem, Rvalue, Statement, TerminatorKind,
};

verus! {

/// The set of indices at which `v` holds `true`.
pub open spec fn set_of(v: Seq<bool>) -> Set<usize> {
    Set::new(|l: usize| l < v.len() && v[l as int])
}

/// The sets held by a vector of bit vectors.
pub open spec fn sets_of(rows: Seq<Vec<bool>>) -> Seq<Set<usize>> {
    Seq::new(rows.len(), |i: int| set_of(rows[i]@))
}

/// The locals holding the indices of the first `k` projections of `p`.
pub open spec fn index_locals_upto(p: Place, k: int) -> Set<usize> {
    Set::new(
        |l: usize| exists|j: int| 0 <= j < k && #[trigger] p.projection@[j] == PlaceElem::Index(l),
    )
}

/// The locals holding the indices of the projections of `p`.
pub open spec fn index_locals(p: Place) -> Set<usize> {
    index_locals_upto(p, p.projection@.len() as int)
}

/// The locals a place reads when its value is read, borrowed or dropped.
pub open spec fn read_uses(p: Place) -> Set<usize> {
    index_locals(p).insert(p.local)
}

/// The locals a place reads when it is written: the pointer it goes through,
/// if any, and its index locals.
pub open spec fn write_uses(p: Place) -> Set<usize> {
    if p.spec_is_indirect() {
        index_locals(p).insert(p.local)
    } else {
        index_locals(p)
    }
}

pub open spec fn operand_uses(o: Operand) -> Set<usize> {
    match o {
        Operand::Copy(p) => read_uses(p),
        Operand::Move(p) => read_uses(p),
        Operand::Constant => Set::empty(),
    }
}

pub open spec fn rvalue_uses(r: Rvalue) -> Set<usize> {
    match r {
        Rvalue::Use(o) => operand_uses(o),
        Rvalue::Ref(p) => read_uses(p),
        Rvalue::RawPtr(p) => read_uses(p),
        Rvalue::UnaryOp(o) => operand_uses(o),
        Rvalue::BinaryOp(a, b) => operand_uses(a).union(operand_uses(b)),
        Rvalue::Discriminant(p) => read_uses(p),
        Rvalue::ExposeProvenance(o) => operand_uses(o),
    }
}

pub open spec fn operands_uses(args: Seq<Operand>) -> Set<usize>
    decreases args.len(),
{
    if args.len() == 0 {
        Set::empty()
    } else {
        operands_uses(args.drop_last()).union(operand_uses(args.last()))
    }
}

/// A write to the whole of a local kills its liveness.
pub open spec fn kill_def(live: Set<usize>, p: Place) -> Set<usize> {
    if p.projection@.len() == 0 {
        live.remove(p.local)
    } else {
        live
    }
}

/// A store to `p` that nothing can observe.
pub open spec fn store_is_dead(
    p: Place,
    live: Set<usize>,
    borrowed: Set<usize>,
    debug: Set<usize>,
) -> bool {
    &&& !p.spec_is_indirect()
    &&& !live.contains(p.local)
    &&& !borrowed.contains(p.local)
    &&& !debug.contains(p.local)
}

/// The locals live before a statement, given those live after it.
pub open spec fn statement_transfer(
    st: Statement,
    live: Set<usize>,
    borrowed: Set<usize>,
    debug: Set<usize>,
) -> Set<usize> {
    match st {
        Statement::Assign(p, rv) => if rv.spec_is_safe_to_remove() && store_is_dead(
            p,
            live,
            borrowed,
            debug,
        ) {
            live
        } else {
            kill_def(live, p).union(write_uses(p)).union(rvalue_uses(rv))
        },
        Statement::SetDiscriminant(p) => if store_is_dead(p, live, borrowed, debug) {
            live
        } else {
            live.union(write_uses(p))
        },
        Statement::Deinit(p) => if store_is_dead(p, live, borrowed, debug) {
            live
        } else {
            kill_def(live, p).union(write_uses(p))
        },
        _ => live,
    }
}

/// The locals that writing to each of `ps` reads.
pub open spec fn places_write_uses(ps: Seq<Place>) -> Set<usize>
    decreases ps.len(),
{
    if ps.len() == 0 {
        Set::empty()
    } else {
        places_write_uses(ps.drop_last()).union(write_uses(ps.last()))
    }
}

/// The locals a terminator reads. A call's destination and the outputs of
/// inline assembly are written only when control goes on to a target, which
/// `edge_live` accounts for.
pub open spec fn terminator_uses(t: TerminatorKind) -> Set<usize> {
    match t {
        TerminatorKind::SwitchInt { discr, .. } => operand_uses(discr),
        TerminatorKind::Return => Set::empty().insert(0usize),
        TerminatorKind::Call { func, args, destination, .. } => operand_uses(func).union(
            operands_uses(args@),
        ).union(write_uses(destination)),
        TerminatorKind::Drop { place, .. } => read_uses(place),
        TerminatorKind::Assert { cond, .. } => operand_uses(cond),
        TerminatorKind::InlineAsm { inputs, outputs, .. } => operands_uses(inputs@).union(
            places_write_uses(outputs@),
        ),
        _ => Set::empty(),
    }
}

/// The edge from a block ending in `t` to `succ` defines the whole local
/// `x`: a call's destination on its return edge, or an output of inline
/// assembly on the edges to its targets.
pub open spec fn edge_defines(t: TerminatorKind, succ: usize, x: usize) -> bool {
    match t {
        TerminatorKind::Call { destination, target, .. } => target == Some(succ)
            && destination.projection@.len() == 0 && destination.local == x,
        TerminatorKind::InlineAsm { outputs, targets, .. } => targets@.contains(succ)
            && writes_whole_local(outputs@, x),
        _ => false,
    }
}

/// One of the places `ps` is the whole local `x`.
pub open spec fn writes_whole_local(ps: Seq<Place>, x: usize) -> bool {
    exists|i: int| 0 <= i < ps.len() && (#[trigger] ps[i]).projection@.len() == 0 && ps[i].local == x
}

/// What the locals live on entry to `succ` make live at the end of a block
/// ending in `t`: all of them but the locals the edge defines.
pub open spec fn edge_live(t: TerminatorKind, succ: usize, live_in: Set<usize>) -> Set<usize> {
    live_in.filter(|x: usize| !edge_defines(t, succ, x))
}

/// The union over the first `k` successors of a block ending in `t`.
pub open spec fn live_out_upto(t: TerminatorKind, ins: Seq<Set<usize>>, k: int) -> Set<usize>
    decreases k,
{
    if k <= 0 {
        Set::empty()
    } else {
        let s = t.spec_successors()[k - 1];
        live_out_upto(t, ins, k - 1).union(edge_live(t, s, ins[s as int]))
    }
}

/// The locals live at the end of block `b`, before its terminator.
pub open spec fn live_after_terminator(body: Body, ins: Seq<Set<usize>>, b: int) -> Set<usize> {
    let t = body.basic_blocks@[b].terminator;
    live_out_upto(t, ins, t.spec_successors().len() as int).union(terminator_uses(t))
}

/// The locals live before statement `i` of block `b`, given `live` at the
/// end of its statements.
pub open spec fn live_before(
    body: Body,
    borrowed: Set<usize>,
    debug: Set<usize>,
    b: int,
    i: int,
    live: Set<usize>,
) -> Set<usize>
    decreases body.basic_blocks@[b].statements@.len() - i,
{
    if i < 0 || i >= body.basic_blocks@[b].statements@.len() {
        live
    } else {
        statement_transfer(
            body.basic_blocks@[b].statements@[i],
            live_before(body, borrowed, debug, b, i + 1, live),
            borrowed,
            debug,
        )
    }
}

/// The locals live on entry to block `b`, given those live on entry to
/// every block.
pub open spec fn live_in(
    body: Body,
    borrowed: Set<usize>,
    debug: Set<usize>,
    ins: Seq<Set<usize>>,
    b: int,
) -> Set<usize> {
    live_before(body, borrowed, debug, b, 0, live_after_terminator(body, ins, b))
}

/// The locals live right after statement `i` of block `b`.
pub open spec fn live_after_statement(
    body: Body,
    borrowed: Set<usize>,
    debug: Set<usize>,
    ins: Seq<Set<usize>>,
    b: int,
    i: int,
) -> Set<usize> {
    live_before(body, borrowed, debug, b, i + 1, live_after_terminator(body, ins, b))
}

pub open spec fn is_live_fixpoint(
    body: Body,
    borrowed: Set<usize>,
    debug: Set<usize>,
    ins: Seq<Set<usize>>,
) -> bool {
    &&& ins.len() == body.basic_blocks@.len()
    &&& forall|b: int|
        0 <= b < ins.len() ==> #[trigger] ins[b] == live_in(body, borrowed, debug, ins, b)
}

/// Sets that hold at least what the transfer functions put in them.
pub open spec fn is_live_post_fixpoint(
    body: Body,
    borrowed: Set<usize>,
    debug: Set<usize>,
    ins: Seq<Set<usize>>,
) -> bool {
    &&& ins.len() == body.basic_blocks@.len()
    &&& forall|b: int|
        0 <= b < ins.len() ==> live_in(body, borrowed, debug, ins, b).subset_of(#[trigger] ins[b])
}

/// The least solution of the liveness equations.
pub open spec fn is_least_live_fixpoint(
    body: Body,
    borrowed: Set<usize>,
    debug: Set<usize>,
    ins: Seq<Set<usize>>,
) -> bool {
    &&& is_live_fixpoint(body, borrowed, debug, ins)
    &&& forall|f: Seq<Set<usize>>|
        #[trigger] is_live_post_fixpoint(body, borrowed, debug, f) ==> forall|b: int|
            0 <= b < ins.len() ==> ins[b].subset_of(#[trigger] f[b])
}

/// `a` is pointwise included in `b`.
pub open spec fn pointwise_subset(a: Seq<Set<usize>>, b: Seq<Set<usize>>) -> bool {
    &&& a.len() == b.len()
    &&& forall|i: int| 0 <= i < a.len() ==> (#[trigger] a[i]).subset_of(b[i])
}

pub proof fn lemma_statement_transfer_monotone(
    st: Statement,
    x: Set<usize>,
    y: Set<usize>,
    borrowed: Set<usize>,
    debug: Set<usize>,
)
    requires
        x.subset_of(y),
    ensures
        statement_transfer(st, x, borrowed, debug).subset_of(
            statement_transfer(st, y, borrowed, debug),
        ),
{
}

proof fn lemma_live_before_monotone(
    body: Body,
    borrowed: Set<usize>,
    debug: Set<usize>,
    b: int,
    i: int,
    x: Set<usize>,
    y: Set<usize>,
)
    requires
        x.subset_of(y),
    ensures
        live_before(body, borrowed, debug, b, i, x).subset_of(
            live_before(body, borrowed, debug, b, i, y),
        ),
    decreases body.basic_blocks@[b].statements@.len() - i,
{
    if !(i < 0 || i >= body.basic_blocks@[b].statements@.len()) {
        lemma_live_before_monotone(body, borrowed, debug, b, i + 1, x, y);
        lemma_statement_transfer_monotone(
            body.basic_blocks@[b].statements@[i],
            live_before(body, borrowed, debug, b, i + 1, x),
            live_before(body, borrowed, debug, b, i + 1, y),
            borrowed,
            debug,
        );
    }
}

proof fn lemma_live_out_monotone(
    t: TerminatorKind,
    x: Seq<Set<usize>>,
    y: Seq<Set<usize>>,
    k: int,
)
    requires
        pointwise_subset(x, y),
        k <= t.spec_successors().len(),
        forall|j: int|
            0 <= j < t.spec_successors().len() ==> #[trigger] t.spec_successors()[j] < x.len(),
    ensures
        live_out_upto(t, x, k).subset_of(live_out_upto(t, y, k)),
    decreases k,
{
    if k > 0 {
        lemma_live_out_monotone(t, x, y, k - 1);
        let s = t.spec_successors()[k - 1];
        assert(x[s as int].subset_of(y[s as int]));
    }
}

/// Liveness on entry to a block grows with the liveness on entry to the
/// other blocks.
pub proof fn lemma_live_in_monotone(
    body: Body,
    borrowed: Set<usize>,
    debug: Set<usize>,
    x: Seq<Set<usize>>,
    y: Seq<Set<usize>>,
    b: int,
)
    requires
        body.wf(),
        0 <= b < body.basic_blocks@.len(),
        x.len() == body.basic_blocks@.len(),
        pointwise_subset(x, y),
    ensures
        live_in(body, borrowed, debug, x, b).subset_of(live_in(body, borrowed, debug, y, b)),
{
    let t = body.basic_blocks@[b].terminator;
    assert(terminator_wf(t, body.local_count as nat, body.basic_blocks@.len()));
    lemma_live_out_monotone(t, x, y, t.spec_successors().len() as int);
    lemma_live_before_monotone(
        body,
        borrowed,
        debug,
        b,
        0,
        live_after_terminator(body, x, b),
        live_after_terminator(body, y, b),
    );
}


/// Whether `st` takes the address of local `l` directly.
pub open spec fn statement_borrows(st: Statement, l: usize) -> bool {
    match st {
        Statement::Assign(_, rv) => match rv {
            Rvalue::Ref(p) => !p.spec_is_indirect() && p.local == l,
            Rvalue::RawPtr(p) => !p.spec_is_indirect() && p.local == l,
            _ => false,
        },
        _ => false,
    }
}

/// Whether `t` drops local `l` in place (drop glue takes `&mut` of it).
pub open spec fn terminator_borrows(t: TerminatorKind, l: usize) -> bool {
    match t {
        TerminatorKind::Drop { place, .. } => !place.spec_is_indirect() && place.local == l,
        _ => false,
    }
}

/// Whether block `blk` borrows local `l` in a statement or its terminator.
pub open spec fn block_borrows(blk: BasicBlockData, l: usize) -> bool {
    ||| terminator_borrows(blk.terminator, l)
    ||| exists|i: int|
        0 <= i < blk.statements@.len() && statement_borrows(#[trigger] blk.statements@[i], l)
}

/// The locals whose address is taken somewhere in the body.
pub open spec fn borrowed_set(body: Body) -> Set<usize> {
    Set::new(
        |l: usize|
            exists|b: int|
                0 <= b < body.basic_blocks@.len() && block_borrows(#[trigger] body.basic_blocks@[b], l),
    )
}

/// The locals that debug information refers to.
pub open spec fn debug_set(body: Body) -> Set<usize> {
    Set::new(|l: usize| body.debug_locals@.contains(l))
}

/// A vector of `len` bits, all unset.
pub fn empty_bits(len: usize) -> (v: Vec<bool>)
    ensures
        v@.len() == len,
        forall|i: int| 0 <= i < len ==> !#[trigger] v@[i],
        set_of(v@) == Set::<usize>::empty(),
{
    let mut v: Vec<bool> = Vec::new();
    while v.len() < len
        invariant
            v@.len() <= len,
            forall|i: int| 0 <= i < v@.len() ==> !#[trigger] v@[i],
        decreases len - v@.len(),
    {
        v.push(false);
    }
    assert(set_of(v@) =~= Set::<usize>::empty());
    v
}

proof fn lemma_set_bit(v: Seq<bool>, l: usize, b: bool)
    requires
        l < v.len(),
    ensures
        b ==> set_of(v.update(l as int, b)) == set_of(v).insert(l),
        !b ==> set_of(v.update(l as int, b)) == set_of(v).remove(l),
{
    if b {
        assert(set_of(v.update(l as int, b)) =~= set_of(v).insert(l));
    } else {
        assert(set_of(v.update(l as int, b)) =~= set_of(v).remove(l));
    }
}

fn add_index_locals(p: &Place, state: &mut Vec<bool>)
    requires
        place_wf(*p, old(state)@.len()),
    ensures
        final(state)@.len() == old(state)@.len(),
        set_of(final(state)@) == set_of(old(state)@).union(index_locals(*p)),
{
    let ghost s0 = set_of(state@);
    let mut i: usize = 0;
    assert(s0.union(index_locals_upto(*p, 0)) =~= s0);
    while i < p.projection.len()
        invariant
            state@.len() == old(state)@.len(),
            place_wf(*p, state@.len()),
            i <= p.projection@.len(),
            set_of(state@) == s0.union(index_locals_upto(*p, i as int)),
        decreases p.projection@.len() - i,
    {
        match p.projection[i] {
            PlaceElem::Index(l) => {
                assert(p.projection@[i as int] matches PlaceElem::Index(l) ==> l < state@.len());
                proof {
                    lemma_set_bit(state@, l, true);
                }
                state.set(l, true);
            },
            _ => {},
        }
        proof {
            let a = index_locals_upto(*p, i as int);
            let c = index_locals_upto(*p, i as int + 1);
            assert forall|x: usize| #[trigger] c.contains(x) == (a.contains(x) || p.projection@[i as int]
                == PlaceElem::Index(x)) by {
                if c.contains(x) {
                    let j = choose|j: int|
                        0 <= j < i + 1 && #[trigger] p.projection@[j] == PlaceElem::Index(x);
                    if j < i {
                        assert(a.contains(x));
                    }
                }
                if a.contains(x) {
                    let j = choose|j: int| 0 <= j < i && #[trigger] p.projection@[j] == PlaceElem::Index(x);
                    assert(c.contains(x));
                }
            }
            assert(set_of(state@) =~= s0.union(c));
        }
        i = i + 1;
    }
}

fn add_read_uses(p: &Place, state: &mut Vec<bool>)
    requires
        place_wf(*p, old(state)@.len()),
    ensures
        final(state)@.len() == old(state)@.len(),
        set_of(final(state)@) == set_of(old(state)@).union(read_uses(*p)),
{
    add_index_locals(p, state);
    proof {
        lemma_set_bit(state@, p.local, true);
    }
    state.set(p.local, true);
    assert(set_of(state@) =~= set_of(old(state)@).union(read_uses(*p)));
}

fn add_write_uses(p: &Place, state: &mut Vec<bool>)
    requires
        place_wf(*p, old(state)@.len()),
    ensures
        final(state)@.len() == old(state)@.len(),
        set_of(final(state)@) == set_of(old(state)@).union(write_uses(*p)),
{
    add_index_locals(p, state);
    if p.is_indirect() {
        proof {
            lemma_set_bit(state@, p.local, true);
        }
        state.set(p.local, true);
        assert(set_of(state@) =~= set_of(old(state)@).union(write_uses(*p)));
    }
}

fn add_operand_uses(o: &Operand, state: &mut Vec<bool>)
    requires
        operand_wf(*o, old(state)@.len()),
    ensures
        final(state)@.len() == old(state)@.len(),
        set_of(final(state)@) == set_of(old(state)@).union(operand_uses(*o)),
{
    match o {
        Operand::Copy(p) => add_read_uses(p, state),
        Operand::Move(p) => add_read_uses(p, state),
        Operand::Constant => {
            assert(set_of(state@) =~= set_of(old(state)@).union(operand_uses(*o)));
        },
    }
}

fn add_rvalue_uses(r: &Rvalue, state: &mut Vec<bool>)
    requires
        rvalue_wf(*r, old(state)@.len()),
    ensures
        final(state)@.len() == old(state)@.len(),
        set_of(final(state)@) == set_of(old(state)@).union(rvalue_uses(*r)),
{
    match r {
        Rvalue::Use(o) => add_operand_uses(o, state),
        Rvalue::Ref(p) => add_read_uses(p, state),
        Rvalue::RawPtr(p) => add_read_uses(p, state),
        Rvalue::UnaryOp(o) => add_operand_uses(o, state),
        Rvalue::BinaryOp(a, b) => {
            add_operand_uses(a, state);
            add_operand_uses(b, state);
            assert(set_of(state@) =~= set_of(old(state)@).union(rvalue_uses(*r)));
        },
        Rvalue::Discriminant(p) => add_read_uses(p, state),
        Rvalue::ExposeProvenance(o) => add_operand_uses(o, state),
    }
}

fn add_operands_uses(args: &Vec<Operand>, state: &mut Vec<bool>)
    requires
        forall|i: int| 0 <= i < args@.len() ==> operand_wf(#[trigger] args@[i], old(state)@.len()),
    ensures
        final(state)@.len() == old(state)@.len(),
        set_of(final(state)@) == set_of(old(state)@).union(operands_uses(args@)),
{
    let ghost s0 = set_of(state@);
    let mut i: usize = 0;
    assert(args@.take(0) =~= Seq::<Operand>::empty());
    assert(s0.union(operands_uses(args@.take(0))) =~= s0);
    while i < args.len()
        invariant
            state@.len() == old(state)@.len(),
            forall|j: int| 0 <= j < args@.len() ==> operand_wf(#[trigger] args@[j], state@.len()),
            i <= args@.len(),
            set_of(state@) == s0.union(operands_uses(args@.take(i as int))),
        decreases args@.len() - i,
    {
        add_operand_uses(&args[i], state);
        proof {
            assert(args@.take(i as int + 1).drop_last() =~= args@.take(i as int));
            assert(args@.take(i as int + 1).last() == args@[i as int]);
            assert(set_of(state@) =~= s0.union(operands_uses(args@.take(i as int + 1))));
        }
        i = i + 1;
    }
    assert(args@.take(args@.len() as int) =~= args@);
}

fn add_places_write_uses(ps: &Vec<Place>, state: &mut Vec<bool>)
    requires
        forall|i: int| 0 <= i < ps@.len() ==> place_wf(#[trigger] ps@[i], old(state)@.len()),
    ensures
        final(state)@.len() == old(state)@.len(),
        set_of(final(state)@) == set_of(old(state)@).union(places_write_uses(ps@)),
{
    let ghost s0 = set_of(state@);
    let mut i: usize = 0;
    assert(ps@.take(0) =~= Seq::<Place>::empty());
    assert(s0.union(places_write_uses(ps@.take(0))) =~= s0);
    while i < ps.len()
        invariant
            state@.len() == old(state)@.len(),
            forall|j: int| 0 <= j < ps@.len() ==> place_wf(#[trigger] ps@[j], state@.len()),
            i <= ps@.len(),
            set_of(state@) == s0.union(places_write_uses(ps@.take(i as int))),
        decreases ps@.len() - i,
    {
        add_write_uses(&ps[i], state);
        proof {
            assert(ps@.take(i as int + 1).drop_last() =~= ps@.take(i as int));
            assert(ps@.take(i as int + 1).last() == ps@[i as int]);
            assert(set_of(state@) =~= s0.union(places_write_uses(ps@.take(i as int + 1))));
        }
        i = i + 1;
    }
    assert(ps@.take(ps@.len() as int) =~= ps@);
}

/// Whether the edge from a block ending in `t` to `succ` defines the whole
/// local `x`.
fn edge_defines_exec(t: &TerminatorKind, succ: usize, x: usize) -> (res: bool)
    ensures
        res == edge_defines(*t, succ, x),
{
    match t {
        TerminatorKind::Call { destination, target, .. } => match target {
            Some(tg) => *tg == succ && destination.projection.len() == 0 && destination.local == x,
            None => false,
        },
        TerminatorKind::InlineAsm { outputs, targets, .. } => {
            let mut k: usize = 0;
            let mut hit = false;
            while k < targets.len()
                invariant
                    edge_defines(*t, succ, x) == (targets@.contains(succ) && writes_whole_local(
                        outputs@,
                        x,
                    )),
                    k <= targets@.len(),
                    hit == exists|a: int| 0 <= a < k && targets@[a] == succ,
                decreases targets@.len() - k,
            {
                if targets[k] == succ {
                    hit = true;
                }
                k = k + 1;
            }
            if !hit {
                return false;
            }
            let mut i: usize = 0;
            while i < outputs.len()
                invariant
                    edge_defines(*t, succ, x) == (targets@.contains(succ) && writes_whole_local(
                        outputs@,
                        x,
                    )),
                    i <= outputs@.len(),
                    targets@.contains(succ),
                    forall|a: int|
                        0 <= a < i ==> !((#[trigger] outputs@[a]).projection@.len() == 0
                            && outputs@[a].local == x),
                decreases outputs@.len() - i,
            {
                if outputs[i].projection.len() == 0 && outputs[i].local == x {
                    assert(outputs@[i as int].projection@.len() == 0 && outputs@[i as int].local == x);
                    return true;
                }
                i = i + 1;
            }
            false
        },
        _ => false,
    }
}

fn store_is_dead_exec(p: &Place, state: &Vec<bool>, borrowed: &Vec<bool>, debug: &Vec<bool>) -> (res:
    bool)
    requires
        p.local < state@.len(),
        borrowed@.len() == state@.len(),
        debug@.len() == state@.len(),
    ensures
        res == store_is_dead(*p, set_of(state@), set_of(borrowed@), set_of(debug@)),
{
    !p.is_indirect() && !state[p.local] && !borrowed[p.local] && !debug[p.local]
}

/// Applies statement `st` backwards to the live locals `state`.
pub fn apply_statement(
    st: &Statement,
    state: &mut Vec<bool>,
    borrowed: &Vec<bool>,
    debug: &Vec<bool>,
)
    requires
        statement_wf(*st, old(state)@.len()),
        borrowed@.len() == old(state)@.len(),
        debug@.len() == old(state)@.len(),
    ensures
        final(state)@.len() == old(state)@.len(),
        set_of(final(state)@) == statement_transfer(
            *st,
            set_of(old(state)@),
            set_of(borrowed@),
            set_of(debug@),
        ),
{
    match st {
        Statement::Assign(p, rv) => {
            if rv.is_safe_to_remove() && store_is_dead_exec(p, state, borrowed, debug) {
                return ;
            }
            if p.projection.len() == 0 {
                proof {
                    lemma_set_bit(state@, p.local, false);
                }
                state.set(p.local, false);
            }
            add_write_uses(p, state);
            add_rvalue_uses(rv, state);
        },
        Statement::SetDiscriminant(p) => {
            if store_is_dead_exec(p, state, borrowed, debug) {
                return ;
            }
            add_write_uses(p, state);
        },
        Statement::Deinit(p) => {
            if store_is_dead_exec(p, state, borrowed, debug) {
                return ;
            }
            if p.projection.len() == 0 {
                proof {
                    lemma_set_bit(state@, p.local, false);
                }
                state.set(p.local, false);
            }
            add_write_uses(p, state);
        },
        _ => {},
    }
}

/// Adds the locals that terminator `t` reads to `state`.
fn apply_terminator_uses(t: &TerminatorKind, state: &mut Vec<bool>, n_blocks: Ghost<nat>)
    requires
        terminator_wf(*t, old(state)@.len(), n_blocks@),
        0 < old(state)@.len(),
    ensures
        final(state)@.len() == old(state)@.len(),
        set_of(final(state)@) == set_of(old(state)@).union(terminator_uses(*t)),
{
    match t {
        TerminatorKind::SwitchInt { discr, .. } => add_operand_uses(discr, state),
        TerminatorKind::Return => {
            proof {
                lemma_set_bit(state@, 0, true);
            }
            state.set(0, true);
            assert(set_of(state@) =~= set_of(old(state)@).union(terminator_uses(*t)));
        },
        TerminatorKind::Call { func, args, destination, .. } => {
            add_operand_uses(func, state);
            add_operands_uses(args, state);
            add_write_uses(destination, state);
            assert(set_of(state@) =~= set_of(old(state)@).union(terminator_uses(*t)));
        },
        TerminatorKind::Drop { place, .. } => add_read_uses(place, state),
        TerminatorKind::Assert { cond, .. } => add_operand_uses(cond, state),
        TerminatorKind::InlineAsm { inputs, outputs, .. } => {
            add_operands_uses(inputs, state);
            add_places_write_uses(outputs, state);
            assert(set_of(state@) =~= set_of(old(state)@).union(terminator_uses(*t)));
        },
        _ => {
            assert(set_of(state@) =~= set_of(old(state)@).union(terminator_uses(*t)));
        },
    }
}


/// `rows` holds `n` bit vectors of length `len`.
pub open spec fn rows_fit(rows: Seq<Vec<bool>>, n: nat, len: nat) -> bool {
    &&& rows.len() == n
    &&& forall|i: int| 0 <= i < n ==> (#[trigger] rows[i])@.len() == len
}

/// The locals live at the end of block `b`: the union over its successors.
pub fn live_out_of(body: &Body, b: usize, ins: &Vec<Vec<bool>>) -> (out: Vec<bool>)
    requires
        body.wf(),
        b < body.basic_blocks@.len(),
        rows_fit(ins@, body.basic_blocks@.len(), body.local_count as nat),
    ensures
        out@.len() == body.local_count,
        set_of(out@) == live_out_upto(
            body.basic_blocks@[b as int].terminator,
            sets_of(ins@),
            body.basic_blocks@[b as int].terminator.spec_successors().len() as int,
        ),
{
    let ghost sets = sets_of(ins@);
    let n = body.basic_blocks.len();
    let nl = body.local_count;
    let t = &body.basic_blocks[b].terminator;
    assert(terminator_wf(*t, nl as nat, n as nat));
    let succs = t.successors();
    let mut out = empty_bits(nl);
    let mut j: usize = 0;
    while j < succs.len()
        invariant
            body.wf(),
            n == body.basic_blocks@.len(),
            nl == body.local_count,
            *t == body.basic_blocks@[b as int].terminator,
            terminator_wf(*t, nl as nat, n as nat),
            succs@ == t.spec_successors(),
            rows_fit(ins@, n as nat, nl as nat),
            sets == sets_of(ins@),
            out@.len() == nl,
            j <= succs@.len(),
            set_of(out@) == live_out_upto(*t, sets, j as int),
        decreases succs@.len() - j,
    {
        let s = succs[j];
        assert(succs@[j as int] < n);
        let row = &ins[s];
        assert(row@.len() == nl);
        let ghost base = out@;
        let ghost edge = edge_live(*t, s, sets[s as int]);
        assert(sets[s as int] == set_of(row@));
        let mut l: usize = 0;
        while l < nl
            invariant
                nl == body.local_count,
                row@.len() == nl,
                out@.len() == nl,
                base.len() == nl,
                l <= nl,
                forall|x: usize|
                    x < nl ==> #[trigger] out@[x as int] == (base[x as int] || (x < l
                        && edge.contains(x))),
                forall|x: usize|
                    #[trigger] edge.contains(x) == (set_of(row@).contains(x) && !edge_defines(
                        *t,
                        s,
                        x,
                    )),
            decreases nl - l,
        {
            let killed = edge_defines_exec(t, s, l);
            if row[l] && !killed {
                out.set(l, true);
            }
            l = l + 1;
        }
        proof {
            assert(set_of(out@) =~= set_of(base).union(edge));
            assert(t.spec_successors()[j as int] == s);
        }
        j = j + 1;
    }
    out
}

/// The locals live on entry to block `b`, given those live on entry to every
/// block.
pub fn live_in_of(body: &Body, b: usize, ins: &Vec<Vec<bool>>, borrowed: &Vec<bool>, debug: &Vec<bool>) -> (res: Vec<bool>)
    requires
        body.wf(),
        b < body.basic_blocks@.len(),
        rows_fit(ins@, body.basic_blocks@.len(), body.local_count as nat),
        borrowed@.len() == body.local_count,
        debug@.len() == body.local_count,
    ensures
        res@.len() == body.local_count,
        set_of(res@) == live_in(*body, set_of(borrowed@), set_of(debug@), sets_of(ins@), b as int),
{
    let ghost bs = set_of(borrowed@);
    let ghost ds = set_of(debug@);
    let mut state = live_out_of(body, b, ins);
    let data = &body.basic_blocks[b];
    assert(crate::mir::block_wf(*data, body.local_count as nat, body.basic_blocks@.len()));
    apply_terminator_uses(&data.terminator, &mut state, Ghost(body.basic_blocks@.len()));
    let ghost lat = live_after_terminator(*body, sets_of(ins@), b as int);
    assert(set_of(state@) == lat);
    let mut i = data.statements.len();
    while i > 0
        invariant
            *data == body.basic_blocks@[b as int],
            bs == set_of(borrowed@),
            ds == set_of(debug@),
            lat == live_after_terminator(*body, sets_of(ins@), b as int),
            crate::mir::block_wf(*data, body.local_count as nat, body.basic_blocks@.len()),
            borrowed@.len() == body.local_count,
            debug@.len() == body.local_count,
            state@.len() == body.local_count,
            i <= data.statements@.len(),
            set_of(state@) == live_before(*body, bs, ds, b as int, i as int, lat),
        decreases i,
    {
        i = i - 1;
        assert(statement_wf(data.statements@[i as int], body.local_count as nat));
        let ghost after = live_before(*body, bs, ds, b as int, i as int + 1, lat);
        assert(live_before(*body, bs, ds, b as int, i as int, lat) == statement_transfer(
            data.statements@[i as int],
            after,
            bs,
            ds,
        ));
        apply_statement(&data.statements[i], &mut state, borrowed, debug);
    }
    state
}

/// The number of unset bits.
pub open spec fn unset_count(v: Seq<bool>) -> nat {
    count_upto(v.len() as int, |x: int| !v[x])
}

pub open spec fn unset_rows(rows: Seq<Vec<bool>>, k: int) -> nat
    decreases k,
{
    if k <= 0 {
        0
    } else {
        unset_rows(rows, k - 1) + unset_count(rows[k - 1]@)
    }
}

proof fn lemma_unset_rows_update(rows: Seq<Vec<bool>>, b: int, r: Vec<bool>, k: int)
    requires
        0 <= b < rows.len(),
        k <= rows.len(),
    ensures
        b < k ==> unset_rows(rows.update(b, r), k) as int == unset_rows(rows, k) - unset_count(
            rows[b]@,
        ) + unset_count(r@),
        b >= k ==> unset_rows(rows.update(b, r), k) == unset_rows(rows, k),
    decreases k,
{
    if k > 0 {
        lemma_unset_rows_update(rows, b, r, k - 1);
    }
}

/// Setting bits never adds unset ones, and setting one removes one.
proof fn lemma_unset_grow(old: Seq<bool>, new: Seq<bool>)
    requires
        old.len() == new.len(),
        old.len() <= usize::MAX,
        set_of(old).subset_of(set_of(new)),
    ensures
        unset_count(new) <= unset_count(old),
        set_of(old) != set_of(new) ==> unset_count(new) < unset_count(old),
{
    let k = old.len() as int;
    let f = |x: int| !new[x];
    let g = |x: int| !old[x];
    assert forall|x: int| 0 <= x < k && #[trigger] f(x) implies g(x) by {
        if old[x] {
            assert(set_of(old).contains(x as usize));
        }
    }
    lemma_count_monotone(k, f, g);
    if set_of(old) != set_of(new) {
        assert(!(set_of(old) =~= set_of(new)));
        let w = choose|w: usize| set_of(new).contains(w) != set_of(old).contains(w);
        assert(set_of(new).contains(w) && !set_of(old).contains(w));
        lemma_count_strict(k, f, g, w as int);
    }
}

/// Every entry set is included in what the equations give for it.
#[verifier::opaque]
pub open spec fn below_equations(
    body: Body,
    bs: Set<usize>,
    ds: Set<usize>,
    rows: Seq<Vec<bool>>,
) -> bool {
    forall|c: int|
        0 <= c < body.basic_blocks@.len() ==> set_of((#[trigger] rows[c])@).subset_of(
            live_in(body, bs, ds, sets_of(rows), c),
        )
}

/// Every entry set is included in that of every post-fixpoint.
#[verifier::opaque]
pub open spec fn below_post_fixpoints(
    body: Body,
    bs: Set<usize>,
    ds: Set<usize>,
    rows: Seq<Vec<bool>>,
) -> bool {
    forall|f: Seq<Set<usize>>|
        #[trigger] is_live_post_fixpoint(body, bs, ds, f) ==> forall|c: int|
            0 <= c < body.basic_blocks@.len() ==> set_of(rows[c]@).subset_of(#[trigger] f[c])
}

/// Replacing the entry set of block `b` by what the equations give for it
/// keeps the entry sets below the equations, below every post-fixpoint, and
/// never unsets a bit.
proof fn lemma_round_step(
    body: Body,
    bs: Set<usize>,
    ds: Set<usize>,
    old_rows: Seq<Vec<bool>>,
    row: Vec<bool>,
    b: int,
    same: bool,
)
    requires
        body.wf(),
        0 <= b < body.basic_blocks@.len(),
        rows_fit(old_rows, body.basic_blocks@.len(), body.local_count as nat),
        row@.len() == body.local_count,
        set_of(row@) == live_in(body, bs, ds, sets_of(old_rows), b),
        same == (row@ == old_rows[b]@),
        below_equations(body, bs, ds, old_rows),
        below_post_fixpoints(body, bs, ds, old_rows),
    ensures
        ({
            let new_rows = old_rows.update(b, row);
            let n = body.basic_blocks@.len();
            &&& below_equations(body, bs, ds, new_rows)
            &&& below_post_fixpoints(body, bs, ds, new_rows)
            &&& unset_rows(new_rows, n as int) <= unset_rows(old_rows, n as int)
            &&& !same ==> unset_rows(new_rows, n as int) < unset_rows(old_rows, n as int)
            &&& same ==> sets_of(new_rows) == sets_of(old_rows)
        }),
{
    reveal(below_equations);
    reveal(below_post_fixpoints);
    let n = body.basic_blocks@.len();
    let old_sets = sets_of(old_rows);
    let new_rows = old_rows.update(b, row);
    let new_sets = sets_of(new_rows);
    assert(new_sets =~= old_sets.update(b, set_of(row@)));
    assert(pointwise_subset(old_sets, new_sets)) by {
        assert(set_of(old_rows[b]@).subset_of(live_in(body, bs, ds, old_sets, b)));
        assert forall|c: int| 0 <= c < old_sets.len() implies (#[trigger] old_sets[c]).subset_of(
            new_sets[c],
        ) by {
            if c == b {
                assert(old_sets[c] == set_of(old_rows[b]@));
            }
        }
    }
    assert forall|c: int| 0 <= c < n implies set_of((#[trigger] new_rows[c])@).subset_of(
        live_in(body, bs, ds, new_sets, c),
    ) by {
        lemma_live_in_monotone(body, bs, ds, old_sets, new_sets, c);
        if c != b {
            assert(set_of(old_rows[c]@).subset_of(live_in(body, bs, ds, old_sets, c)));
        }
    }
    assert forall|f: Seq<Set<usize>>| #[trigger]
        is_live_post_fixpoint(body, bs, ds, f) implies forall|c: int|
        0 <= c < n ==> set_of(new_rows[c]@).subset_of(#[trigger] f[c]) by {
        assert(pointwise_subset(old_sets, f)) by {
            assert forall|c: int| 0 <= c < old_sets.len() implies (#[trigger] old_sets[c]).subset_of(
                f[c],
            ) by {
                assert(set_of(old_rows[c]@).subset_of(f[c]));
            }
        }
        lemma_live_in_monotone(body, bs, ds, old_sets, f, b);
        assert(live_in(body, bs, ds, f, b).subset_of(f[b]));
        assert forall|c: int| 0 <= c < n implies set_of(new_rows[c]@).subset_of(#[trigger] f[c]) by {
            if c != b {
                assert(set_of(old_rows[c]@).subset_of(f[c]));
            }
        }
    }
    assert(set_of(old_rows[b]@).subset_of(set_of(row@)));
    lemma_unset_grow(old_rows[b]@, row@);
    lemma_unset_rows_update(old_rows, b, row, n as int);
    if !same {
        if set_of(old_rows[b]@) == set_of(row@) {
            assert(old_rows[b]@ =~= row@) by {
                assert forall|x: int| 0 <= x < row@.len() implies old_rows[b]@[x] == row@[x] by {
                    assert(set_of(row@).contains(x as usize) == row@[x]);
                    assert(set_of(old_rows[b]@).contains(x as usize) == old_rows[b]@[x]);
                }
            }
        }
    }
    if same {
        assert(new_sets =~= old_sets);
    }
}

/// Whether two bit vectors of the same length are equal.
fn bits_equal(a: &Vec<bool>, b: &Vec<bool>) -> (res: bool)
    requires
        a@.len() == b@.len(),
    ensures
        res == (a@ == b@),
{
    let mut i: usize = 0;
    while i < a.len()
        invariant
            a@.len() == b@.len(),
            i <= a@.len(),
            forall|j: int| 0 <= j < i ==> a@[j] == b@[j],
        decreases a@.len() - i,
    {
        if a[i] != b[i] {
            return false;
        }
        i = i + 1;
    }
    assert(a@ =~= b@);
    true
}

/// The locals live on entry to each block: the least solution of the
/// transitive liveness equations, found by iterating from empty sets.
pub fn compute_liveness(body: &Body, borrowed: &Vec<bool>, debug: &Vec<bool>) -> (ins: Vec<Vec<bool>>)
    requires
        body.wf(),
        borrowed@.len() == body.local_count,
        debug@.len() == body.local_count,
    ensures
        rows_fit(ins@, body.basic_blocks@.len(), body.local_count as nat),
        is_least_live_fixpoint(*body, set_of(borrowed@), set_of(debug@), sets_of(ins@)),
{
    let ghost bs = set_of(borrowed@);
    let ghost ds = set_of(debug@);
    let n = body.basic_blocks.len();
    let nl = body.local_count;
    let mut ins: Vec<Vec<bool>> = Vec::new();
    while ins.len() < n
        invariant
            ins@.len() <= n,
            forall|i: int| 0 <= i < ins@.len() ==> (#[trigger] ins@[i])@.len() == nl,
            forall|i: int| 0 <= i < ins@.len() ==> set_of((#[trigger] ins@[i])@) == Set::<usize>::empty(),
        decreases n - ins@.len(),
    {
        ins.push(empty_bits(nl));
    }
    proof {
        reveal(below_equations);
        reveal(below_post_fixpoints);
    }
    let mut changed = true;
    while changed
        invariant
            body.wf(),
            n == body.basic_blocks@.len(),
            nl == body.local_count,
            borrowed@.len() == nl,
            debug@.len() == nl,
            rows_fit(ins@, n as nat, nl as nat),
            bs == set_of(borrowed@),
            ds == set_of(debug@),
            below_equations(*body, bs, ds, ins@),
            below_post_fixpoints(*body, bs, ds, ins@),
            !changed ==> is_live_fixpoint(*body, bs, ds, sets_of(ins@)),
        decreases unset_rows(ins@, n as int) + if changed {
            1int
        } else {
            0int
        },
    {
        let ghost start = unset_rows(ins@, n as int);
        changed = false;
        let mut b: usize = 0;
        while b < n
            invariant
                body.wf(),
                n == body.basic_blocks@.len(),
                nl == body.local_count,
                borrowed@.len() == nl,
                debug@.len() == nl,
                rows_fit(ins@, n as nat, nl as nat),
                b <= n,
                bs == set_of(borrowed@),
                ds == set_of(debug@),
                below_equations(*body, bs, ds, ins@),
                below_post_fixpoints(*body, bs, ds, ins@),
                unset_rows(ins@, n as int) <= start,
                changed ==> unset_rows(ins@, n as int) < start,
                !changed ==> forall|c: int|
                    0 <= c < b ==> set_of((#[trigger] ins@[c])@) == live_in(
                        *body,
                        bs,
                        ds,
                        sets_of(ins@),
                        c,
                    ),
            decreases n - b,
        {
            let row = live_in_of(body, b, &ins, borrowed, debug);
            let same = bits_equal(&row, &ins[b]);
            let ghost old_rows = ins@;
            proof {
                lemma_round_step(*body, bs, ds, old_rows, row, b as int, same);
            }
            if !same {
                changed = true;
            }
            ins.set(b, row);
            b = b + 1;
        }
    }
    proof {
        reveal(below_post_fixpoints);
    }
    ins
}


/// Marks the locals that block `blk` borrows.
fn mark_block_borrows(blk: &BasicBlockData, state: &mut Vec<bool>, n_blocks: Ghost<nat>)
    requires
        block_wf(*blk, old(state)@.len(), n_blocks@),
    ensures
        final(state)@.len() == old(state)@.len(),
        set_of(final(state)@) == set_of(old(state)@).union(
            Set::new(|l: usize| block_borrows(*blk, l)),
        ),
{
    let ghost s0 = set_of(state@);
    let mut i: usize = 0;
    assert(s0.union(
        Set::new(
            |l: usize|
                exists|j: int| 0 <= j < 0 && statement_borrows(#[trigger] blk.statements@[j], l),
        ),
    ) =~= s0);
    while i < blk.statements.len()
        invariant
            block_wf(*blk, state@.len(), n_blocks@),
            state@.len() == old(state)@.len(),
            i <= blk.statements@.len(),
            set_of(state@) == s0.union(
                Set::new(
                    |l: usize|
                        exists|j: int|
                            0 <= j < i && statement_borrows(#[trigger] blk.statements@[j], l),
                ),
            ),
        decreases blk.statements@.len() - i,
    {
        assert(statement_wf(blk.statements@[i as int], state@.len()));
        let borrowed: Option<usize> = match &blk.statements[i] {
            Statement::Assign(_, rv) => match rv {
                Rvalue::Ref(p) => if p.is_indirect() {
                    None
                } else {
                    Some(p.local)
                },
                Rvalue::RawPtr(p) => if p.is_indirect() {
                    None
                } else {
                    Some(p.local)
                },
                _ => None,
            },
            _ => None,
        };
        assert(forall|l: usize|
            statement_borrows(blk.statements@[i as int], l) <==> borrowed == Some(l));
        if let Some(l) = borrowed {
            proof {
                lemma_set_bit(state@, l, true);
            }
            state.set(l, true);
        }
        proof {
            assert(set_of(state@) =~= s0.union(
                Set::new(
                    |l: usize|
                        exists|j: int|
                            0 <= j < i + 1 && statement_borrows(#[trigger] blk.statements@[j], l),
                ),
            ));
        }
        i = i + 1;
    }
    match &blk.terminator {
        TerminatorKind::Drop { place, .. } => {
            if !place.is_indirect() {
                proof {
                    lemma_set_bit(state@, place.local, true);
                }
                state.set(place.local, true);
            }
        },
        _ => {},
    }
    assert(set_of(state@) =~= s0.union(Set::new(|l: usize| block_borrows(*blk, l))));
}

/// The locals whose address is taken somewhere in the body.
pub fn borrowed_locals(body: &Body) -> (res: Vec<bool>)
    requires
        body.wf(),
    ensures
        res@.len() == body.local_count,
        set_of(res@) == borrowed_set(*body),
{
    let n = body.basic_blocks.len();
    let mut res = empty_bits(body.local_count);
    let mut b: usize = 0;
    while b < n
        invariant
            body.wf(),
            n == body.basic_blocks@.len(),
            res@.len() == body.local_count,
            b <= n,
            set_of(res@) == Set::new(
                |l: usize|
                    exists|c: int| 0 <= c < b && block_borrows(#[trigger] body.basic_blocks@[c], l),
            ),
        decreases n - b,
    {
        mark_block_borrows(&body.basic_blocks[b], &mut res, Ghost(n as nat));
        proof {
            assert(set_of(res@) =~= Set::new(
                |l: usize|
                    exists|c: int|
                        0 <= c < b + 1 && block_borrows(#[trigger] body.basic_blocks@[c], l),
            ));
        }
        b = b + 1;
    }
    assert(set_of(res@) =~= borrowed_set(*body));
    res
}

/// The locals that debug information refers to.
pub fn debuginfo_locals(body: &Body) -> (res: Vec<bool>)
    requires
        body.wf(),
    ensures
        res@.len() == body.local_count,
        set_of(res@) == debug_set(*body),
{
    let mut res = empty_bits(body.local_count);
    let mut i: usize = 0;
    while i < body.debug_locals.len()
        invariant
            body.wf(),
            res@.len() == body.local_count,
            i <= body.debug_locals@.len(),
            set_of(res@) == Set::new(|l: usize| body.debug_locals@.take(i as int).contains(l)),
        decreases body.debug_locals@.len() - i,
    {
        let l = body.debug_locals[i];
        proof {
            lemma_set_bit(res@, l, true);
            let t = body.debug_locals@.take(i as int);
            let t1 = body.debug_locals@.take(i as int + 1);
            assert(t1 =~= t.push(l));
            assert forall|x: usize| t1.contains(x) == (t.contains(x) || x == l) by {
                if t1.contains(x) && x != l {
                    let j = choose|j: int| 0 <= j < t1.len() && t1[j] == x;
                    assert(t[j] == x);
                }
                if t.contains(x) {
                    let j = choose|j: int| 0 <= j < t.len() && t[j] == x;
                    assert(t1[j] == x);
                }
                if x == l {
                    assert(t1[i as int] == x);
                }
            }
        }
        res.set(l, true);
        i = i + 1;
        assert(set_of(res@) =~= Set::new(|x: usize| body.debug_locals@.take(i as int).contains(x)));
    }
    assert(body.debug_locals@.take(body.debug_locals@.len() as int) =~= body.debug_locals@);
    assert(set_of(res@) =~= debug_set(*body));
    res
}

/// The least solution of the liveness equations is unique.
pub proof fn lemma_least_fixpoint_unique(
    body: Body,
    bs: Set<usize>,
    ds: Set<usize>,
    x: Seq<Set<usize>>,
    y: Seq<Set<usize>>,
)
    requires
        is_least_live_fixpoint(body, bs, ds, x),
        is_least_live_fixpoint(body, bs, ds, y),
    ensures
        x == y,
{
    assert(is_live_post_fixpoint(body, bs, ds, x));
    assert(is_live_post_fixpoint(body, bs, ds, y));
    assert forall|b: int| 0 <= b < x.len() implies #[trigger] x[b] == y[b] by {
        assert(x[b].subset_of(y[b]));
        assert(y[b].subset_of(x[b]));
        assert(x[b] =~= y[b]);
    }
    assert(x =~= y);
}


/// The locals live at the end of block `b`, just before its terminator runs.
pub fn live_at_block_end(body: &Body, b: usize, ins: &Vec<Vec<bool>>) -> (res: Vec<bool>)
    requires
        body.wf(),
        b < body.basic_blocks@.len(),
        rows_fit(ins@, body.basic_blocks@.len(), body.local_count as nat),
    ensures
        res@.len() == body.local_count,
        set_of(res@) == live_after_terminator(*body, sets_of(ins@), b as int),
{
    let mut state = live_out_of(body, b, ins);
    let data = &body.basic_blocks[b];
    assert(block_wf(*data, body.local_count as nat, body.basic_blocks@.len()));
    apply_terminator_uses(&data.terminator, &mut state, Ghost(body.basic_blocks@.len()));
    state
}


/// A local read by a statement that is not itself a dead store is live right
/// before that statement: a definition is never found dead when the next
/// statement uses it.
pub proof fn lemma_read_is_live_before(
    body: Body,
    bs: Set<usize>,
    ds: Set<usize>,
    ins: Seq<Set<usize>>,
    b: int,
    i: int,
    x: usize,
)
    requires
        0 <= b < body.basic_blocks@.len(),
        0 <= i,
        i + 1 < body.basic_blocks@[b].statements@.len(),
        body.basic_blocks@[b].statements@[i + 1] matches Statement::Assign(p, rv) && {
            &&& rvalue_uses(rv).contains(x)
            &&& !(rv.spec_is_safe_to_remove() && store_is_dead(
                p,
                live_after_statement(body, bs, ds, ins, b, i + 1),
                bs,
                ds,
            ))
        },
    ensures
        live_after_statement(body, bs, ds, ins, b, i).contains(x),
{
}

/// Operand `o` reads local `l`: it copies or moves a place based on `l` or
/// indexed by `l`.
pub open spec fn operand_reads(o: Operand, l: usize) -> bool {
    match o {
        Operand::Copy(p) => p.local == l || p.projection@.contains(PlaceElem::Index(l)),
        Operand::Move(p) => p.local == l || p.projection@.contains(PlaceElem::Index(l)),
        Operand::Constant => false,
    }
}

/// A terminator reads local `l` before control leaves its block: the value
/// a switch inspects, an assert's condition, a call's callee and arguments,
/// the place a drop drops, the inputs of inline assembly, and the return
/// place on return.
pub open spec fn terminator_reads(t: TerminatorKind, l: usize) -> bool {
    match t {
        TerminatorKind::SwitchInt { discr, .. } => operand_reads(discr, l),
        TerminatorKind::Assert { cond, .. } => operand_reads(cond, l),
        TerminatorKind::Call { func, args, .. } => operand_reads(func, l) || exists|i: int|
            0 <= i < args@.len() && operand_reads(#[trigger] args@[i], l),
        TerminatorKind::Drop { place, .. } => place.local == l || place.projection@.contains(
            PlaceElem::Index(l),
        ),
        TerminatorKind::InlineAsm { inputs, .. } => exists|i: int|
            0 <= i < inputs@.len() && operand_reads(#[trigger] inputs@[i], l),
        TerminatorKind::Return => l == 0,
        _ => false,
    }
}

proof fn lemma_operand_reads_used(o: Operand, l: usize)
    requires
        operand_reads(o, l),
    ensures
        operand_uses(o).contains(l),
{
    match o {
        Operand::Copy(p) => lemma_place_reads_used(p, l),
        Operand::Move(p) => lemma_place_reads_used(p, l),
        Operand::Constant => {},
    }
}

proof fn lemma_place_reads_used(p: Place, l: usize)
    requires
        p.local == l || p.projection@.contains(PlaceElem::Index(l)),
    ensures
        read_uses(p).contains(l),
{
    if p.local != l {
        let j = choose|j: int| 0 <= j < p.projection@.len() && p.projection@[j] == PlaceElem::Index(l);
        assert(index_locals(p).contains(l));
    }
}

proof fn lemma_operands_uses_contains(args: Seq<Operand>, i: int, l: usize)
    requires
        0 <= i < args.len(),
        operand_uses(args[i]).contains(l),
    ensures
        operands_uses(args).contains(l),
    decreases args.len(),
{
    if i < args.len() - 1 {
        assert(args.drop_last()[i] == args[i]);
        lemma_operands_uses_contains(args.drop_last(), i, l);
    }
}

/// Whatever the liveness on entry to the blocks, every local that a
/// terminator reads is live at the end of its block: an assert keeps its
/// condition live, a switch the value it inspects, a call its arguments, and
/// a return the return place. So no store feeding one of them is dead.
pub proof fn lemma_terminator_reads_are_live(body: Body, ins: Seq<Set<usize>>, b: int, l: usize)
    requires
        0 <= b < body.basic_blocks@.len(),
        terminator_reads(body.basic_blocks@[b].terminator, l),
    ensures
        live_after_terminator(body, ins, b).contains(l),
{
    let t = body.basic_blocks@[b].terminator;
    match t {
        TerminatorKind::SwitchInt { discr, .. } => lemma_operand_reads_used(discr, l),
        TerminatorKind::Assert { cond, .. } => lemma_operand_reads_used(cond, l),
        TerminatorKind::Call { func, args, destination, .. } => {
            if operand_reads(func, l) {
                lemma_operand_reads_used(func, l);
            } else {
                let i = choose|i: int| 0 <= i < args@.len() && operand_reads(#[trigger] args@[i], l);
                lemma_operand_reads_used(args@[i], l);
                lemma_operands_uses_contains(args@, i, l);
            }
        },
        TerminatorKind::Drop { place, .. } => lemma_place_reads_used(place, l),
        TerminatorKind::InlineAsm { inputs, outputs, .. } => {
            let i = choose|i: int| 0 <= i < inputs@.len() && operand_reads(#[trigger] inputs@[i], l);
            lemma_operand_reads_used(inputs@[i], l);
            lemma_operands_uses_contains(inputs@, i, l);
        },
        _ => {},
    }
}

/// Liveness is killed only by a write to the whole local: if `x` is live
/// after a statement and not before it, the statement assigns to or
/// de-initialises `x` itself. A store to a field or an element of `x`, or to
/// its discriminant, is a partial write and leaves `x` live.
pub proof fn lemma_only_whole_writes_kill(
    st: Statement,
    live: Set<usize>,
    borrowed: Set<usize>,
    debug: Set<usize>,
    x: usize,
)
    requires
        live.contains(x),
        !statement_transfer(st, live, borrowed, debug).contains(x),
    ensures
        st matches Statement::Assign(p, _) ==> p.projection@.len() == 0 && p.local == x,
        st matches Statement::Deinit(p) ==> p.projection@.len() == 0 && p.local == x,
        st is Assign || st is Deinit,
{
}

/// Taking the address of a local, by a reference or a raw pointer, or
/// dropping it in place, makes it borrowed: stores to it are then never
/// counted dead, since they may be observed through the pointer.
pub proof fn lemma_address_taken_is_borrowed(body: Body, b: int, i: int, p: Place)
    requires
        0 <= b < body.basic_blocks@.len(),
        0 <= i < body.basic_blocks@[b].statements@.len(),
        body.basic_blocks@[b].statements@[i] matches Statement::Assign(_, rv) && (rv == Rvalue::Ref(
            p,
        ) || rv == Rvalue::RawPtr(p)),
        !p.projection@.contains(PlaceElem::Deref),
    ensures
        borrowed_set(body).contains(p.local),
{
    assert(statement_borrows(body.basic_blocks@[b].statements@[i], p.local));
    assert(block_borrows(body.basic_blocks@[b], p.local));
}

/// A drop of a local in place borrows it.
pub proof fn lemma_dropped_in_place_is_borrowed(body: Body, b: int, place: Place)
    requires
        0 <= b < body.basic_blocks@.len(),
        body.basic_blocks@[b].terminator matches TerminatorKind::Drop { place: q, .. } && q == place,
        !place.projection@.contains(PlaceElem::Deref),
    ensures
        borrowed_set(body).contains(place.local),
{
    assert(block_borrows(body.basic_blocks@[b], place.local));
}

/// Rvalue `rv` reads local `l`: through one of its operands, or through the
/// place it borrows, takes the address of, or reads the discriminant of.
pub open spec fn rvalue_reads(rv: Rvalue, l: usize) -> bool {
    match rv {
        Rvalue::Use(o) => operand_reads(o, l),
        Rvalue::UnaryOp(o) => operand_reads(o, l),
        Rvalue::ExposeProvenance(o) => operand_reads(o, l),
        Rvalue::BinaryOp(a, b) => operand_reads(a, l) || operand_reads(b, l),
        Rvalue::Ref(p) => p.local == l || p.projection@.contains(PlaceElem::Index(l)),
        Rvalue::RawPtr(p) => p.local == l || p.projection@.contains(PlaceElem::Index(l)),
        Rvalue::Discriminant(p) => p.local == l || p.projection@.contains(PlaceElem::Index(l)),
    }
}

/// A store that may be observed makes live every local its value reads: one
/// whose local is live afterwards, borrowed, named by debug information or
/// written through a pointer, or whose value exposes a pointer's provenance.
pub proof fn lemma_kept_store_reads_are_live(
    p: Place,
    rv: Rvalue,
    live: Set<usize>,
    borrowed: Set<usize>,
    debug: Set<usize>,
    l: usize,
)
    requires
        live.contains(p.local) || borrowed.contains(p.local) || debug.contains(p.local)
            || p.projection@.contains(PlaceElem::Deref) || rv is ExposeProvenance,
        rvalue_reads(rv, l),
    ensures
        statement_transfer(Statement::Assign(p, rv), live, borrowed, debug).contains(l),
{
    match rv {
        Rvalue::Use(o) => lemma_operand_reads_used(o, l),
        Rvalue::UnaryOp(o) => lemma_operand_reads_used(o, l),
        Rvalue::ExposeProvenance(o) => lemma_operand_reads_used(o, l),
        Rvalue::BinaryOp(a, b) => if operand_reads(a, l) {
            lemma_operand_reads_used(a, l);
        } else {
            lemma_operand_reads_used(b, l);
        },
        Rvalue::Ref(q) => lemma_place_reads_used(q, l),
        Rvalue::RawPtr(q) => lemma_place_reads_used(q, l),
        Rvalue::Discriminant(q) => lemma_place_reads_used(q, l),
    }
}

/// A store that nothing can observe changes nothing: with its local dead
/// afterwards, not borrowed, not named by debug information, not written
/// through a pointer, and a value that exposes no provenance, the locals
/// live before it are those live after it. So the locals it reads do not
/// become live on its account (liveness is transitive).
pub proof fn lemma_dead_store_is_transparent(
    p: Place,
    rv: Rvalue,
    live: Set<usize>,
    borrowed: Set<usize>,
    debug: Set<usize>,
)
    requires
        !live.contains(p.local),
        !borrowed.contains(p.local),
        !debug.contains(p.local),
        !p.projection@.contains(PlaceElem::Deref),
        !(rv is ExposeProvenance),
    ensures
        statement_transfer(Statement::Assign(p, rv), live, borrowed, debug) == live,
{
}

/// A store to the whole of a local whose value does not read that local
/// leaves it dead before the store: its old value is overwritten unread.
pub proof fn lemma_whole_store_kills(
    p: Place,
    rv: Rvalue,
    live: Set<usize>,
    borrowed: Set<usize>,
    debug: Set<usize>,
)
    requires
        p.projection@.len() == 0,
        !rvalue_reads(rv, p.local),
    ensures
        !statement_transfer(Statement::Assign(p, rv), live, borrowed, debug).contains(p.local),
{
    let x = p.local;
    assert(!index_locals(p).contains(x));
    assert(!p.spec_is_indirect());
    match rv {
        Rvalue::Use(o) => lemma_operand_uses_read(o, x),
        Rvalue::UnaryOp(o) => lemma_operand_uses_read(o, x),
        Rvalue::ExposeProvenance(o) => lemma_operand_uses_read(o, x),
        Rvalue::BinaryOp(a, b) => {
            lemma_operand_uses_read(a, x);
            lemma_operand_uses_read(b, x);
        },
        Rvalue::Ref(q) => lemma_place_uses_read(q, x),
        Rvalue::RawPtr(q) => lemma_place_uses_read(q, x),
        Rvalue::Discriminant(q) => lemma_place_uses_read(q, x),
    }
}

proof fn lemma_place_uses_read(p: Place, l: usize)
    ensures
        read_uses(p).contains(l) ==> p.local == l || p.projection@.contains(PlaceElem::Index(l)),
{
    if read_uses(p).contains(l) && p.local != l {
        assert(index_locals(p).contains(l));
        let j = choose|j: int| 0 <= j < p.projection@.len() && #[trigger] p.projection@[j]
            == PlaceElem::Index(l);
        assert(p.projection@[j] == PlaceElem::Index(l));
    }
}

proof fn lemma_operand_uses_read(o: Operand, l: usize)
    ensures
        operand_uses(o).contains(l) ==> operand_reads(o, l),
{
    match o {
        Operand::Copy(p) => lemma_place_uses_read(p, l),
        Operand::Move(p) => lemma_place_uses_read(p, l),
        Operand::Constant => {},
    }
}

proof fn lemma_live_out_upto_contains(t: TerminatorKind, ins: Seq<Set<usize>>, k: int, j: int, x: usize)
    requires
        0 <= j < k <= t.spec_successors().len(),
        edge_live(t, t.spec_successors()[j], ins[t.spec_successors()[j] as int]).contains(x),
    ensures
        live_out_upto(t, ins, k).contains(x),
    decreases k,
{
    if j < k - 1 {
        lemma_live_out_upto_contains(t, ins, k - 1, j, x);
    }
}

/// Liveness flows back along every edge: a local live on entry to a
/// successor is live at the end of the block, unless that edge itself
/// writes the whole local (a call's destination on its return edge, an
/// output of inline assembly on the edges to its targets).
pub proof fn lemma_live_flows_back(body: Body, ins: Seq<Set<usize>>, b: int, j: int, x: usize)
    requires
        0 <= b < body.basic_blocks@.len(),
        0 <= j < body.succs(b).len(),
        ins[body.succs(b)[j] as int].contains(x),
        !(body.basic_blocks@[b].terminator matches TerminatorKind::Call {
            destination,
            target,
            ..
        } && target == Some(body.succs(b)[j]) && destination.projection@.len() == 0
            && destination.local == x),
        !(body.basic_blocks@[b].terminator matches TerminatorKind::InlineAsm {
            outputs,
            targets,
            ..
        } && targets@.contains(body.succs(b)[j]) && exists|i: int|
            0 <= i < outputs@.len() && (#[trigger] outputs@[i]).projection@.len() == 0
                && outputs@[i].local == x),
    ensures
        live_after_terminator(body, ins, b).contains(x),
{
    let t = body.basic_blocks@[b].terminator;
    let sj = t.spec_successors()[j];
    assert(!edge_defines(t, sj, x));
    assert(edge_live(t, sj, ins[sj as int]).contains(x));
    lemma_live_out_upto_contains(t, ins, t.spec_successors().len() as int, j, x);
}

} // verus!
