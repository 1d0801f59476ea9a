//! Running a queue: forward to apply its renames, backward to revert them,
//! and in the atomic variants undoing a failed attempt. The execution
//! decides; the caller performs each rename on the file system and reports
//! how it went.
use crate::error::Error;
use crate::mapping::Mapping;
use crate::queue::{next_of, RenameQueue};
use vstd::prelude::*;

verus! {

/// What an execution is to do.
#[derive(Debug, Clone, Copy, PartialEq, Eq)]
pub enum Task {
    /// Apply the pending renames.
    Rename,
    /// Revert the renames that ran.
    Revert,
    /// Apply the pending renames; on a failure, revert what was applied.
    RenameAtomic,
    /// Revert the renames that ran; on a failure, apply them again.
    RevertAtomic,
}

/// How the file system took a rename that it was asked to perform.
#[derive(Debug)]
pub enum Outcome {
    /// The source now lies at the destination.
    Moved,
    /// The destination existed already; nothing was touched.
    DestinationExists,
    /// The file system failed.
    Failed(std::io::Error),
}

/// Where an execution stands.
#[derive(Debug)]
pub enum Phase {
    /// Carrying out the task.
    Attempt,
    /// Undoing an attempt that failed with this error.
    Rollback(Error),
    /// Over, with this result.
    Finished(Result<(), Error>),
}

/// Whether the task runs the queue forward.
pub open spec fn attempt_forward(task: Task) -> bool {
    task == Task::Rename || task == Task::RenameAtomic
}

/// Whether the task undoes a failed attempt.
pub open spec fn is_atomic(task: Task) -> bool {
    task == Task::RenameAtomic || task == Task::RevertAtomic
}

/// The error that a failed rename `st` gives, for the outcome `o`.
pub open spec fn step_error(o: Outcome, st: (Seq<char>, Seq<char>), e: Error) -> bool {
    match o {
        Outcome::Moved => false,
        Outcome::DestinationExists => e matches Error::AlreadyExists { src, dst } && src@ == st.0
            && dst@ == st.1,
        Outcome::Failed(io) => e == Error::Io(io),
    }
}

/// A queue being applied or reverted.
pub struct Execution {
    queue: RenameQueue,
    task: Task,
    phase: Phase,
}

impl Execution {
    /// The queue, as it stands.
    pub closed spec fn queue(&self) -> (Seq<(Seq<char>, Seq<char>)>, nat) {
        self.queue@
    }

    /// What the execution is to do.
    pub closed spec fn task(&self) -> Task {
        self.task
    }

    /// Where the execution stands.
    pub closed spec fn phase(&self) -> Phase {
        self.phase
    }

    /// Whether the execution runs the queue forward now.
    pub open spec fn forward(&self) -> bool {
        if self.phase() is Rollback {
            !attempt_forward(self.task())
        } else {
            attempt_forward(self.task())
        }
    }

    /// The rename to perform next, if any.
    pub open spec fn next(&self) -> Option<(Seq<char>, Seq<char>)> {
        if self.phase() is Finished {
            None
        } else {
            next_of(self.queue(), self.forward())
        }
    }

    /// The result once no rename is left: success after a complete attempt,
    /// the attempt's error after a complete rollback.
    pub open spec fn result(&self) -> Result<(), Error> {
        match self.phase() {
            Phase::Attempt => Ok(()),
            Phase::Rollback(e) => Err(e),
            Phase::Finished(r) => r,
        }
    }

    /// Starts an execution of `task` on `queue`.
    pub fn start(queue: RenameQueue, task: Task) -> (x: Execution)
        ensures
            x.queue() == queue@,
            x.task() == task,
            x.phase() is Attempt,
    {
        Execution { queue, task, phase: Phase::Attempt }
    }

    fn runs_forward(&self) -> (r: bool)
        ensures
            r == self.forward(),
    {
        let attempt = matches!(self.task, Task::Rename | Task::RenameAtomic);
        match self.phase {
            Phase::Rollback(_) => !attempt,
            _ => attempt,
        }
    }

    /// The rename to perform next, if any.
    pub fn next_step(&self) -> (m: Option<Mapping>)
        ensures
            m is Some == self.next() is Some,
            m is Some ==> m->0@ == self.next()->0,
    {
        match self.phase {
            Phase::Finished(_) => None,
            _ => self.queue.next(self.runs_forward()),
        }
    }

    /// Takes in how the file system took the rename `next_step` gave. After
    /// a success the cursor moves on; after a failure the attempt turns into
    /// a rollback (atomic tasks) or the execution ends with the error, and a
    /// failed rollback ends it with both errors.
    pub fn record(self, outcome: Outcome) -> (x: Execution)
        requires
            self.next() is Some,
        ensures
            x.task() == self.task(),
            ({
                let st = self.next()->0;
                match outcome {
                    Outcome::Moved => {
                        &&& x.phase() == self.phase()
                        &&& x.queue().0 == self.queue().0
                        &&& self.forward() ==> x.queue().1 == self.queue().1 + 1
                        &&& !self.forward() ==> x.queue().1 == self.queue().1 - 1
                    },
                    _ => {
                        &&& x.queue() == self.queue()
                        &&& match self.phase() {
                            Phase::Rollback(first) => x.phase() matches Phase::Finished(
                                Err(Error::AtomicActionFailed { during_attempt, during_rollback }),
                            ) && *during_attempt == first && step_error(
                                outcome,
                                (st.0, st.1),
                                *during_rollback,
                            ),
                            _ => if is_atomic(self.task()) {
                                x.phase() matches Phase::Rollback(e) && step_error(outcome, st, e)
                            } else {
                                x.phase() matches Phase::Finished(Err(e)) && step_error(
                                    outcome,
                                    st,
                                    e,
                                )
                            },
                        }
                    },
                }
            }),
    {
        let forward = self.runs_forward();
        let step = self.queue.next(forward);
        let Execution { mut queue, task, phase } = self;
        let error = match outcome {
            Outcome::Moved => {
                queue.moved(forward);
                return Execution { queue, task, phase };
            },
            Outcome::DestinationExists => {
                let st = step.unwrap();
                Error::AlreadyExists { src: st.src().to_owned(), dst: st.dst().to_owned() }
            },
            Outcome::Failed(io) => Error::Io(io),
        };
        let phase = match phase {
            Phase::Rollback(first) => Phase::Finished(
                Err(
                    Error::AtomicActionFailed {
                        during_attempt: Box::new(first),
                        during_rollback: Box::new(error),
                    },
                ),
            ),
            _ => if matches!(task, Task::RenameAtomic | Task::RevertAtomic) {
                Phase::Rollback(error)
            } else {
                Phase::Finished(Err(error))
            },
        };
        Execution { queue, task, phase }
    }

    /// Ends an execution that has no rename left: the queue, and the result.
    pub fn finish(self) -> (r: (RenameQueue, Result<(), Error>))
        requires
            self.next() is None,
        ensures
            r.0@ == self.queue(),
            r.1 == self.result(),
    {
        let Execution { queue, task, phase } = self;
        let result = match phase {
            Phase::Attempt => Ok(()),
            Phase::Rollback(e) => Err(e),
            Phase::Finished(r) => r,
        };
        (queue, result)
    }
}

impl RenameQueue {
    /// Starts applying the pending renames.
    pub fn rename(self) -> (x: Execution)
        ensures
            x.queue() == self@,
            x.task() == Task::Rename,
            x.phase() is Attempt,
    {
        Execution::start(self, Task::Rename)
    }

    /// Starts reverting the renames that ran, the last one first.
    pub fn revert(self) -> (x: Execution)
        ensures
            x.queue() == self@,
            x.task() == Task::Revert,
            x.phase() is Attempt,
    {
        Execution::start(self, Task::Revert)
    }

    /// Starts applying the pending renames, and reverting them again should
    /// one fail.
    pub fn rename_atomic(self) -> (x: Execution)
        ensures
            x.queue() == self@,
            x.task() == Task::RenameAtomic,
            x.phase() is Attempt,
    {
        Execution::start(self, Task::RenameAtomic)
    }

    /// Starts reverting the renames that ran, and applying them again should
    /// one fail.
    pub fn revert_atomic(self) -> (x: Execution)
        ensures
            x.queue() == self@,
            x.task() == Task::RevertAtomic,
            x.phase() is Attempt,
    {
        Execution::start(self, Task::RevertAtomic)
    }
}

} // verus!
