//! The schedule iterator: walks a proof along a list of `(depth, offset)` coordinates,
//! keeping the stack of the subproofs that are open.
use crate::ast::ProofCommand;
use vstd::prelude::*;

verus! {

/// The offset that marks the end of the current subproof in a schedule.
pub const CLOSING_OFFSET: usize = usize::MAX;

/// An iterator over the commands of a proof, in the order a schedule gives.
pub struct ScheduleIter<'a> {
    proof_stack: Vec<&'a [ProofCommand]>,
    steps: &'a Vec<(usize, usize)>,
    step_id: usize,
}

impl<'a> ScheduleIter<'a> {
    /// The command lists of the open frames, the root proof first.
    pub closed spec fn stack(&self) -> Seq<Seq<ProofCommand>> {
        self.proof_stack@.map_values(|s: &'a [ProofCommand]| s@)
    }

    /// The schedule.
    pub closed spec fn schedule(&self) -> Seq<(usize, usize)> {
        self.steps@
    }

    /// How many coordinates of the schedule have been used.
    pub closed spec fn position(&self) -> nat {
        self.step_id as nat
    }

    /// The iterator's invariant: the root frame is always open, and a subproof is open
    /// only after a command was yielded.
    pub open spec fn wf(&self) -> bool {
        &&& self.stack().len() >= 1
        &&& self.position() <= self.schedule().len()
        &&& self.stack().len() > 1 ==> self.position() > 0
    }

    /// Whether the next coordinate, if any, is a closing mark or names a command of an
    /// open frame.
    pub open spec fn next_valid(&self) -> bool {
        self.position() < self.schedule().len() ==> {
            let s = self.schedule()[self.position() as int];
            s.1 == CLOSING_OFFSET || (s.0 < self.stack().len() && s.1 < self.stack()[s.0 as int].len())
        }
    }

    /// An iterator at the start of `steps`, over the root commands `proof_commands`.
    pub fn new(proof_commands: &'a [ProofCommand], steps: &'a Vec<(usize, usize)>) -> (r: Self)
        ensures
            r.wf(),
            r.stack() == seq![proof_commands@],
            r.schedule() == steps@,
            r.position() == 0,
    {
        let r = ScheduleIter { proof_stack: vec![proof_commands], steps, step_id: 0 };
        proof {
            assert(r.stack() =~= seq![proof_commands@]);
        }
        r
    }

    /// The depth of the last command yielded: zero in the root proof.
    pub fn depth(&self) -> (r: usize)
        requires
            self.wf(),
        ensures
            r == self.stack().len() - 1,
    {
        self.proof_stack.len() - 1
    }

    /// Whether the iterator is inside a subproof.
    pub fn is_in_subproof(&self) -> (r: bool)
        requires
            self.wf(),
        ensures
            r == (self.stack().len() > 1),
    {
        self.depth() > 0
    }

    /// The commands of the innermost open subproof, if one is open.
    pub fn current_subproof(&self) -> (r: Option<&'a [ProofCommand]>)
        requires
            self.wf(),
        ensures
            self.stack().len() > 1 ==> r is Some && r->Some_0@ == self.stack().last(),
            self.stack().len() <= 1 ==> r is None,
    {
        if self.is_in_subproof() {
            Some(self.proof_stack[self.proof_stack.len() - 1])
        } else {
            None
        }
    }

    /// Whether the last command yielded was the last command of the innermost open
    /// subproof (a subproof just opened is not its own last command).
    pub fn is_end_step(&self) -> (r: bool)
        requires
            self.wf(),
        ensures
            r == (self.stack().len() > 1 && self.stack().last().len() > 0
                && self.schedule()[self.position() - 1].0 == self.stack().len() - 1
                && self.schedule()[self.position() - 1].1 == self.stack().last().len() - 1),
    {
        if !self.is_in_subproof() {
            return false;
        }
        let top = self.proof_stack[self.proof_stack.len() - 1];
        let last = self.steps[self.step_id - 1];
        top.len() > 0 && last.0 == self.depth() && last.1 == top.len() - 1
    }

    /// The command at `(depth, offset)` among the open frames.
    pub fn get_premise(&self, index: (usize, usize)) -> (r: &'a ProofCommand)
        requires
            index.0 < self.stack().len(),
            index.1 < self.stack()[index.0 as int].len(),
        ensures
            *r == self.stack()[index.0 as int][index.1 as int],
    {
        let frame = self.proof_stack[index.0];
        &frame[index.1]
    }

    /// The next command of the schedule. A closing mark yields [`ProofCommand::Closing`]
    /// and leaves the frames as they are. Otherwise the frames above the coordinate's
    /// depth are closed, and a subproof that is yielded is opened.
    pub fn next(&mut self) -> (r: Option<&'a ProofCommand>)
        requires
            old(self).wf(),
            old(self).next_valid(),
        ensures
            final(self).wf(),
            final(self).schedule() == old(self).schedule(),
            old(self).position() >= old(self).schedule().len() ==> r is None && final(self).stack()
                == old(self).stack() && final(self).position() == old(self).position(),
            old(self).position() < old(self).schedule().len() ==> {
                let s = old(self).schedule()[old(self).position() as int];
                let base = old(self).stack().take(s.0 + 1);
                &&& final(self).position() == old(self).position() + 1
                &&& r is Some
                &&& s.1 == CLOSING_OFFSET ==> *r->Some_0 == ProofCommand::Closing
                    && final(self).stack() == old(self).stack()
                &&& s.1 != CLOSING_OFFSET ==> {
                    &&& *r->Some_0 == base.last()[s.1 as int]
                    &&& final(self).stack() == match base.last()[s.1 as int] {
                        ProofCommand::Subproof(sp) => base.push(sp.commands@),
                        _ => base,
                    }
                }
            },
    {
        if self.step_id < self.steps.len() {
            self.step_id += 1;
            let cur_step = self.steps[self.step_id - 1];
            if cur_step.1 == CLOSING_OFFSET {
                return Some(&ProofCommand::Closing);
            }
            let ghost stack0 = self.stack();
            while cur_step.0 != self.proof_stack.len() - 1
                invariant
                    cur_step.0 < self.proof_stack.len(),
                    self.proof_stack.len() <= stack0.len(),
                    self.stack() == stack0.take(self.proof_stack.len() as int),
                    self.step_id == old(self).step_id + 1,
                    self.steps == old(self).steps,
                    self.step_id <= self.steps.len(),
                    stack0 == old(self).stack(),
                    cur_step == self.steps@[old(self).step_id as int],
                decreases self.proof_stack.len(),
            {
                self.proof_stack.pop();
                proof {
                    assert(self.stack() =~= stack0.take(self.proof_stack.len() as int));
                }
            }
            let top = self.proof_stack[self.proof_stack.len() - 1];
            let command = &top[cur_step.1];
            if let ProofCommand::Subproof(subproof) = command {
                self.proof_stack.push(subproof.commands.as_slice());
                proof {
                    assert(self.stack() =~= stack0.take(cur_step.0 + 1).push(subproof.commands@));
                }
            }
            proof {
                assert(self.stack().len() > 1 ==> self.position() > 0);
            }
            Some(command)
        } else {
            None
        }
    }
}

} // verus!
