# mir_adce

Aggressive dead code elimination (ADCE) over a model of MIR bodies, verified
with Verus.

The pass works in two phases.

- **Value deadness.** Transitive liveness of locals is computed backwards as
  the least solution of the liveness equations. An assignment `_l = use` to a
  whole local that is neither borrowed nor named by debug information, in a
  block reachable from the entry, and after which `_l` is not live, is dead;
  it becomes a no-op.
- **Control-flow deadness.** The post-dominator tree is built on the reverse
  control-flow graph, rooted at a virtual exit that leads to every block
  without successors. For each branch, the blocks control dependent on it
  along each successor are the chain of immediate post-dominators from that
  successor up to the first node that post-dominates the branch. When all of
  them are `Goto` blocks holding only no-ops, storage markers and dead
  assignments, and no successor leads back to the branch, the branch becomes
  a `Goto` to its immediate post-dominator, provided both blocks agree on
  being cleanup blocks.

Only a `SwitchInt` is ever collapsed: calls, drops, asserts, inline
assembly and every other terminator with an effect are never removed. Loops are left alone: a block on a cycle of the control-flow graph
keeps its terminator, and so do blocks that cannot reach an exit. The pass
neither removes nor adds a cycle, and a block reached from the entry that
holds a statement the pass keeps is still reached from it afterwards.

## Layout

- `src/mir.rs`: bodies, blocks, statements, terminators, places. Inline
  assembly reads its input operands and, like a call's destination, writes
  its outputs only on the edges to its targets.
- `src/graph.rs`, `src/counting.rs`: walks, reachability by depth-first search.
- `src/dominators.rs`: dominators from their definition by walks, with the
  laws of the dominator tree (reflexive, transitive, antisymmetric, unique
  and existing immediate dominators).
- `src/post_dom.rs`: the reverse graph with its virtual exit.
- `src/liveness.rs`: transitive liveness as a least fixpoint.
- `src/adce.rs`: the pass, `run_pass`, and its laws.
- `src/programs.rs`: small functions whose MIR exercises the pass.
- `tests/`: the pass on the MIR of those functions, and the analyses on
  concrete bodies.

The result is the body right after the two phases, before any control-flow
cleanup. A compiler pipeline would follow the pass with a CFG simplification
(removing unreachable blocks, merging `Goto` chains, stripping no-ops); this
library does not, so its output differs from the fully cleaned body. For
example, on a call followed by a branch with an empty arm, the branch becomes
a `Goto` to the merge block and the emptied arm stays in the body, unreachable,
where a cleaned body would be just the call followed by a return.
