//! Running a statement of the database to its end.

use vstd::prelude::*;

verus! {

/// What a step of a statement came to.
#[derive(Debug, Clone, Copy, PartialEq, Eq, Structural)]
pub enum StatementStep {
    /// A row.
    Row,
    /// The end; so many rows were changed.
    Done { changes: i64 },
    /// Input or output is to be done first.
    Io,
    /// The database is busy.
    Busy,
    /// The statement was interrupted.
    Interrupt,
}

/// What is to be done after a step of a statement.
#[derive(Debug, Clone, Copy, PartialEq, Eq, Structural)]
pub enum StatementTurn {
    /// Nothing: so many rows were changed.
    Finished(u64),
    /// Input and output, and the next step.
    StepIo,
}

/// Why a statement is not run to its end.
#[derive(Debug, Clone, Copy, PartialEq, Eq, Structural)]
pub enum StatementError {
    /// There was a row where none was expected.
    UnexpectedRow,
    /// The database is locked.
    Locked,
    /// The statement was interrupted.
    Interrupted,
}

/// What is to be done after a step of a statement that gives no rows.
pub fn execute_step(step: StatementStep) -> (turn: Result<StatementTurn, StatementError>)
    requires
        step matches StatementStep::Done { changes } ==> changes >= 0,
    ensures
        turn == match step {
            StatementStep::Row => Err::<StatementTurn, StatementError>(
                StatementError::UnexpectedRow,
            ),
            StatementStep::Done { changes } => Ok(StatementTurn::Finished(changes as u64)),
            StatementStep::Io => Ok(StatementTurn::StepIo),
            StatementStep::Busy => Err(StatementError::Locked),
            StatementStep::Interrupt => Err(StatementError::Interrupted),
        },
{
    match step {
        StatementStep::Row => Err(StatementError::UnexpectedRow),
        StatementStep::Done { changes } => Ok(StatementTurn::Finished(changes as u64)),
        StatementStep::Io => Ok(StatementTurn::StepIo),
        StatementStep::Busy => Err(StatementError::Locked),
        StatementStep::Interrupt => Err(StatementError::Interrupted),
    }
}

} // verus!
