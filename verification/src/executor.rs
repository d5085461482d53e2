use vstd::prelude::*;
use crate::graph::{apply_stmts, first_failure, lemma_ingestion_no_failure};
use crate::report::{compile_report, compile_request, lemma_request_shape, ReportRequest};
use crate::statements::stmts_v;
use crate::store::{MemStore, StatementOutcome, StoreError};

verus! {

/// An error surfaced by the transaction executor.
#[derive(Clone, Copy, Debug, PartialEq, Eq, Structural)]
pub enum ExecError {
    /// The true failure: the lowest-numbered statement that failed for a
    /// concrete reason, with its error.
    Store { index: usize, error: StoreError },
    /// Every reported error carried only the generic not-executed status - a
    /// programming-contract breach, surfaced distinctly from store errors.
    InvariantViolation,
}

/// First-real-error recovery: scan the per-statement results, discard the
/// generic not-executed statuses that a failed transaction propagates to the
/// other statements, and surface the error of the lowest-numbered statement
/// that failed for a concrete reason. When only not-executed statuses are
/// present, that is an invariant violation, never a silent success.
pub fn check_first_real_error(outcomes: &Vec<StatementOutcome>) -> (r: Result<(), ExecError>)
    ensures
        (r is Ok) <==> (forall|j: int|
            0 <= j < outcomes@.len() ==> (#[trigger] outcomes@[j]) is Succeeded),
        (match r {
            Result::Err(ExecError::Store { index, error }) => 0 <= index < outcomes@.len()
                && outcomes@[index as int] == StatementOutcome::Failed(error) && forall|j: int|
                0 <= j < index ==> !((#[trigger] outcomes@[j]) is Failed),
            _ => true,
        }),
        (exists|j: int| 0 <= j < outcomes@.len() && (#[trigger] outcomes@[j]) is Failed) ==> (
        match r {
            Result::Err(ExecError::Store { .. }) => true,
            _ => false,
        }),
        (r == Result::<(), ExecError>::Err(ExecError::InvariantViolation)) <==> ((exists|j: int|
            0 <= j < outcomes@.len() && !((#[trigger] outcomes@[j]) is Succeeded)) && (forall|
            j: int,
        |
            0 <= j < outcomes@.len() ==> !((#[trigger] outcomes@[j]) is Failed))),
{
    let n = outcomes.len();
    let mut i: usize = 0;
    let mut saw_not_executed = false;
    while i < n
        invariant
            n == outcomes@.len(),
            i <= n,
            forall|j: int| 0 <= j < i ==> !((#[trigger] outcomes@[j]) is Failed),
            saw_not_executed <==> (exists|j: int|
                0 <= j < i && (#[trigger] outcomes@[j]) is NotExecuted),
        decreases n - i,
    {
        let o = outcomes[i];
        match o {
            StatementOutcome::Failed(e) => {
                return Err(ExecError::Store { index: i, error: e });
            },
            StatementOutcome::NotExecuted => {
                proof {
                    assert(outcomes@[i as int] is NotExecuted);
                }
                saw_not_executed = true;
            },
            StatementOutcome::Succeeded => {
            },
        }
        i += 1;
    }
    if saw_not_executed {
        proof {
            let j = choose|j: int| 0 <= j < n && (#[trigger] outcomes@[j]) is NotExecuted;
            assert(!(outcomes@[j] is Succeeded));
        }
        Err(ExecError::InvariantViolation)
    } else {
        proof {
            assert forall|j: int|
                0 <= j < outcomes@.len() implies (#[trigger] outcomes@[j]) is Succeeded by {
                if !(outcomes@[j] is Failed) && !(outcomes@[j] is NotExecuted) {
                }
            }
        }
        Ok(())
    }
}

/// Compile one ingestion request and execute it in a single read-write
/// transaction. A compiled ingestion list holds only conflict-free upserts
/// and merges, so the transaction always commits and the graph advances by
/// exactly the compiled statements; there is no partial application.
pub fn ingest(store: &mut MemStore, req: &ReportRequest) -> (r: Result<(), ExecError>)
    requires
        old(store).wf(),
    ensures
        final(store).wf(),
        r is Ok,
        final(store)@ == apply_stmts(old(store)@, compile_request(*req), 0),
{
    let stmts = compile_report(req);
    proof {
        lemma_request_shape(*req);
        lemma_ingestion_no_failure(old(store)@, compile_request(*req), 0);
    }
    let outcomes = store.execute_transaction(&stmts);
    let r = check_first_real_error(&outcomes);
    proof {
        assert(first_failure(old(store)@, stmts_v(stmts@), 0) is None);
        assert(r is Ok);
    }
    r
}

} // verus!
