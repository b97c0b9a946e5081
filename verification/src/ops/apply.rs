//! Applying a batch of operations to a diagram, all or nothing, under a revision check.

use vstd::prelude::*;
use crate::model::diagram::{Diagram, DiagramAst, DiagramKind, ast_kind};
use crate::model::flow_ast::FlowchartAst;
use crate::model::seq_ast::SequenceAst;
use crate::sorted_map::Duplicate;
use super::delta::{DeltaBuilder, delta_reports};
use super::flow_apply::{apply_flow_op, flow_state};
use super::seq_apply::{apply_seq_op, seq_state};
use super::spec::{ApplyErrorView, AstState, apply_all, op_step, state_kind};
use super::{ApplyError, ApplyResult, Delta, Op, OpKind};

verus! {

/// The abstract content of a diagram's AST.
pub open spec fn ast_state(a: DiagramAst) -> AstState {
    match a {
        DiagramAst::Sequence(s) => AstState::Sequence(seq_state(s)),
        DiagramAst::Flowchart(f) => AstState::Flow(flow_state(f)),
    }
}

/// The revision after one successful batch.
pub open spec fn next_rev(rev: u64) -> u64 {
    if rev < u64::MAX {
        (rev + 1) as u64
    } else {
        rev
    }
}

/// The outcome `apply_ops` owes for a diagram, a base revision and a batch.
pub open spec fn apply_outcome(
    before: Diagram,
    base_rev: u64,
    ops: Seq<Op>,
    after: Diagram,
    r: Result<ApplyResult, ApplyError>,
) -> bool {
    if base_rev != before.rev {
        &&& r matches Err(e) && e@ == (ApplyErrorView::Conflict { base_rev, current_rev: before.rev })
        &&& after == before
    } else if ops.len() == 0 {
        &&& r matches Ok(res) && res.new_rev == before.rev && res.applied == 0
            && res.delta.added@.len() == 0 && res.delta.removed@.len() == 0 && res.delta.updated@.len() == 0
        &&& after == before
    } else {
        match apply_all(before.diagram_id@, ast_state(before.ast), ops) {
            Ok((a, t)) => {
                &&& r matches Ok(res) && res.new_rev == after.rev && res.applied == ops.len()
                    && delta_reports(res.delta, t)
                &&& ast_state(after.ast) == a
                &&& after.diagram_id == before.diagram_id
                &&& after.name == before.name
                &&& after.rev == next_rev(before.rev)
            },
            Err(e) => {
                &&& r matches Err(x) && x@ == e
                &&& after == before
            },
        }
    }
}

/// An identical copy of an AST.
fn duplicate_ast(a: &DiagramAst) -> (r: DiagramAst)
    ensures
        ast_state(r) == ast_state(*a),
        ast_kind(&r) == ast_kind(a),
{
    match a {
        DiagramAst::Sequence(s) => {
            let c = s.duplicate();
            proof {
                assert(seq_state(c) =~= seq_state(*s));
            }
            DiagramAst::Sequence(c)
        },
        DiagramAst::Flowchart(f) => {
            let c = f.duplicate();
            proof {
                assert(flow_state(c) =~= flow_state(*f));
            }
            DiagramAst::Flowchart(c)
        },
    }
}

proof fn lemma_state_kind(a: DiagramAst)
    ensures
        state_kind(ast_state(a)) == ast_kind(&a),
{
}

/// The kind of every state a batch passes through is the kind it started with.
proof fn lemma_apply_all_kind(d: Seq<char>, a: AstState, ops: Seq<Op>)
    ensures
        apply_all(d, a, ops) matches Ok((a2, t)) ==> state_kind(a2) == state_kind(a),
    decreases ops.len(),
{
    if ops.len() > 0 {
        lemma_apply_all_kind(d, a, ops.drop_last());
    }
}

/// Once a prefix of a batch is refused, the whole batch is refused with the same error.
proof fn lemma_apply_all_err_prefix(d: Seq<char>, a: AstState, ops: Seq<Op>, k: int)
    requires
        0 <= k <= ops.len(),
        apply_all(d, a, ops.take(k)) is Err,
    ensures
        apply_all(d, a, ops) == apply_all(d, a, ops.take(k)),
    decreases ops.len() - k,
{
    if k == ops.len() {
        assert(ops.take(k) =~= ops);
    } else {
        assert(ops.take(k + 1).drop_last() =~= ops.take(k));
        lemma_apply_all_err_prefix(d, a, ops, k + 1);
    }
}

/// Applies `ops` to `diagram` in order, all or nothing.
///
/// The batch is refused with `Conflict` when `base_rev` is not the diagram's revision. An empty
/// batch changes nothing. Otherwise each operation is applied in turn; the first refusal
/// refuses the whole batch and leaves the diagram as it was. On success the diagram holds the
/// new AST, its revision is bumped, and the delta lists what was added, removed and updated.
pub fn apply_ops(diagram: &mut Diagram, base_rev: u64, ops: &[Op]) -> (r: Result<ApplyResult, ApplyError>)
    ensures
        apply_outcome(*old(diagram), base_rev, ops@, *final(diagram), r),
{
    let current_rev = diagram.rev();
    if base_rev != current_rev {
        return Err(ApplyError::Conflict { base_rev, current_rev });
    }
    if ops.len() == 0 {
        return Ok(ApplyResult { new_rev: current_rev, applied: 0, delta: Delta::default() });
    }
    let ghost d = diagram.diagram_id@;
    let ghost a0 = ast_state(diagram.ast);
    let mut new_ast = duplicate_ast(&diagram.ast);
    let diagram_id = diagram.diagram_id.duplicate();
    let mut delta = DeltaBuilder::new();
    let mut i: usize = 0;
    proof {
        assert(ops@.take(0) =~= Seq::<Op>::empty());
    }
    while i < ops.len()
        invariant
            d == diagram.diagram_id@,
            diagram_id@ == d,
            *diagram == *old(diagram),
            base_rev == old(diagram).rev,
            ops@.len() > 0,
            a0 == ast_state(old(diagram).ast),
            ast_kind(&new_ast) == ast_kind(&old(diagram).ast),
            i <= ops@.len(),
            apply_all(d, a0, ops@.take(i as int)) == Ok::<(AstState, super::spec::Changes), ApplyErrorView>((ast_state(new_ast), delta@)),
        decreases ops@.len() - i,
    {
        let op = &ops[i];
        let ghost st_i = ast_state(new_ast);
        let ghost t_i = delta@;
        proof {
            assert(ops@.take(i + 1).drop_last() =~= ops@.take(i as int));
            assert(ops@.take(i + 1).last() == ops@[i as int]);
            lemma_state_kind(new_ast);
            lemma_state_kind(old(diagram).ast);
            assert(apply_all(d, a0, ops@.take(i + 1)) == op_step(d, st_i, t_i, ops@[i as int]));
        }
        match op {
            Op::Sequence(seq_op) => {
                match &mut new_ast {
                    DiagramAst::Sequence(ast) => {
                        match apply_seq_op(&diagram_id, ast, seq_op, &mut delta) {
                            Err(e) => {
                                proof {
                                    lemma_apply_all_err_prefix(d, a0, ops@, i + 1);
                                }
                                return Err(e);
                            },
                            Ok(()) => {},
                        }
                    },
                    _ => {
                        proof {
                            lemma_apply_all_err_prefix(d, a0, ops@, i + 1);
                        }
                        return Err(ApplyError::KindMismatch { diagram_kind: diagram.kind(), op_kind: OpKind::Sequence });
                    },
                }
            },
            Op::Flow(flow_op) => {
                match &mut new_ast {
                    DiagramAst::Flowchart(ast) => {
                        match apply_flow_op(&diagram_id, ast, flow_op, &mut delta) {
                            Err(e) => {
                                proof {
                                    lemma_apply_all_err_prefix(d, a0, ops@, i + 1);
                                }
                                return Err(e);
                            },
                            Ok(()) => {},
                        }
                    },
                    _ => {
                        proof {
                            lemma_apply_all_err_prefix(d, a0, ops@, i + 1);
                        }
                        return Err(ApplyError::KindMismatch { diagram_kind: diagram.kind(), op_kind: OpKind::Flow });
                    },
                }
            },
            Op::XRef(_) => {
                proof {
                    lemma_apply_all_err_prefix(d, a0, ops@, i + 1);
                }
                return Err(ApplyError::UnsupportedOp { op_kind: OpKind::XRef });
            },
        }
        i = i + 1;
    }
    proof {
        assert(ops@.take(ops@.len() as int) =~= ops@);
    }
    match diagram.set_ast(new_ast) {
        Ok(()) => {},
        Err(mismatch) => {
            let op_kind = match mismatch.found() {
                DiagramKind::Sequence => OpKind::Sequence,
                DiagramKind::Flowchart => OpKind::Flow,
            };
            return Err(ApplyError::KindMismatch { diagram_kind: mismatch.expected(), op_kind });
        },
    }
    diagram.bump_rev();
    let new_rev = diagram.rev();
    Ok(ApplyResult { new_rev, applied: ops.len(), delta: delta.finish() })
}

} // verus!
