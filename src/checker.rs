//! What the rules share: the arguments they receive, their errors, and the small
//! assertions that every rule uses in the same way.
//!
//! Terms of one pool are equal exactly when their ids are, so equality assertions
//! compare ids. Equality up to the reordering of equalities (deep equality), with the
//! time it takes, belongs to rules outside this library and is not offered here.
use crate::ast::{command_clause, command_id, Operator, ProofArg, ProofCommand, TermId};
use crate::pool::TermPool;
use vstd::prelude::*;

verus! {

/// A range of counts, with an inclusive lower bound and an optional inclusive upper bound.
#[derive(Debug, Clone, Copy, PartialEq, Eq, Structural)]
pub struct Range {
    pub min: usize,
    pub max: Option<usize>,
}

impl Range {
    /// Exactly `n`.
    pub fn exactly(n: usize) -> (r: Range)
        ensures
            r == (Range { min: n, max: Some(n) }),
    {
        Range { min: n, max: Some(n) }
    }

    /// At least `n`.
    pub fn at_least(n: usize) -> (r: Range)
        ensures
            r == (Range { min: n, max: None }),
    {
        Range { min: n, max: None }
    }

    /// From `lo` to `hi`, both included.
    pub fn between(lo: usize, hi: usize) -> (r: Range)
        ensures
            r == (Range { min: lo, max: Some(hi) }),
    {
        Range { min: lo, max: Some(hi) }
    }

    pub open spec fn has(self, n: usize) -> bool {
        self.min <= n && match self.max {
            Some(m) => n <= m,
            None => true,
        }
    }

    /// Whether `n` lies in the range.
    pub fn contains(&self, n: usize) -> (r: bool)
        ensures
            r == self.has(n),
    {
        self.min <= n && match self.max {
            Some(m) => n <= m,
            None => true,
        }
    }
}

/// A failed equality assertion between two terms.
#[derive(Debug, Clone, Copy, PartialEq, Eq, Structural)]
pub enum EqualityError {
    ExpectedEqual(TermId, TermId),
    ExpectedToBe { expected: TermId, got: TermId },
}

/// Why a rule rejects a step.
#[derive(Debug, Clone, PartialEq, Eq)]
pub enum CheckerError {
    WrongNumberOfPremises(Range, usize),
    WrongLengthOfClause(Range, usize),
    WrongNumberOfArgs(Range, usize),
    WrongNumberOfTermsInOp(Operator, Range, usize),
    Equality(EqualityError),
    ExpectedBoolConstant(bool, TermId),
    /// The premise (by name) should have a clause with a length in the range.
    WrongLengthOfPremiseClause(String, Range, usize),
    /// No chain of equalities leads from the first term to the second.
    BrokenTransitivityChain(TermId, TermId),
    /// The term does not have the shape that the rule asks for.
    TermOfWrongForm(TermId),
}

/// A premise of a step, resolved: its name, its clause, and where it stands.
#[derive(Debug, PartialEq, Eq)]
pub struct Premise {
    pub id: String,
    pub clause: Vec<TermId>,
    pub index: (usize, usize),
}

impl Premise {
    /// The premise that `command`, at `index`, provides.
    pub fn new(index: (usize, usize), command: &ProofCommand) -> (r: Premise)
        ensures
            r.id@ == command_id(*command),
            r.clause@ == command_clause(*command),
            r.index == index,
    {
        Premise { id: command.id(), clause: command.clause(), index }
    }

    /// A copy of this premise.
    pub fn duplicate(&self) -> (r: Premise)
        ensures
            r.id == self.id,
            r.clause@ == self.clause@,
            r.index == self.index,
    {
        Premise {
            id: self.id.clone(),
            clause: crate::ast::duplicate_ids(&self.clause),
            index: self.index,
        }
    }
}

/// What a rule is given to check a step. The pool is passed to a rule beside this
/// bundle; the substitution contexts of subproof-closing rules belong to those rules,
/// which are outside this library.
pub struct RuleArgs<'a> {
    /// The clause of the step.
    pub conclusion: &'a [TermId],
    /// The step's premises, resolved.
    pub premises: &'a [Premise],
    pub args: &'a [ProofArg],
    /// For a step that closes a subproof, the command before it in that subproof.
    pub previous_command: Option<&'a Premise>,
    pub discharge: &'a [(usize, usize)],
}

/// The one term of a premise's clause, or an error if the clause is not a unit.
pub fn get_premise_term(premise: &Premise) -> (r: Result<TermId, CheckerError>)
    ensures
        premise.clause@.len() == 1 ==> r == Ok::<TermId, CheckerError>(premise.clause@[0]),
        premise.clause@.len() != 1 ==> r == Err::<TermId, CheckerError>(
            CheckerError::WrongLengthOfPremiseClause(
                premise.id,
                Range { min: 1, max: Some(1) },
                premise.clause@.len() as usize,
            ),
        ),
{
    if premise.clause.len() == 1 {
        Ok(premise.clause[0])
    } else {
        Err(
            CheckerError::WrongLengthOfPremiseClause(
                premise.id.clone(),
                Range::exactly(1),
                premise.clause.len(),
            ),
        )
    }
}

/// Checks the number of premises.
pub fn assert_num_premises(premises: &[Premise], range: Range) -> (r: Result<(), CheckerError>)
    ensures
        r == if range.has(premises@.len() as usize) {
            Ok(())
        } else {
            Err(CheckerError::WrongNumberOfPremises(range, premises@.len() as usize))
        },
{
    if !range.contains(premises.len()) {
        return Err(CheckerError::WrongNumberOfPremises(range, premises.len()));
    }
    Ok(())
}

/// Checks the length of a clause.
pub fn assert_clause_len(clause: &[TermId], range: Range) -> (r: Result<(), CheckerError>)
    ensures
        r == if range.has(clause@.len() as usize) {
            Ok(())
        } else {
            Err(CheckerError::WrongLengthOfClause(range, clause@.len() as usize))
        },
{
    if !range.contains(clause.len()) {
        return Err(CheckerError::WrongLengthOfClause(range, clause.len()));
    }
    Ok(())
}

/// Checks the number of arguments.
pub fn assert_num_args(args: &[ProofArg], range: Range) -> (r: Result<(), CheckerError>)
    ensures
        r == if range.has(args@.len() as usize) {
            Ok(())
        } else {
            Err(CheckerError::WrongNumberOfArgs(range, args@.len() as usize))
        },
{
    if !range.contains(args.len()) {
        return Err(CheckerError::WrongNumberOfArgs(range, args.len()));
    }
    Ok(())
}

/// Checks the number of arguments of an operator application.
pub fn assert_operation_len(op: Operator, args: &[TermId], range: Range) -> (r: Result<
    (),
    CheckerError,
>)
    ensures
        r == if range.has(args@.len() as usize) {
            Ok(())
        } else {
            Err(CheckerError::WrongNumberOfTermsInOp(op, range, args@.len() as usize))
        },
{
    if !range.contains(args.len()) {
        return Err(CheckerError::WrongNumberOfTermsInOp(op, range, args.len()));
    }
    Ok(())
}

/// Checks that two terms of one pool are the same term.
pub fn assert_eq(a: TermId, b: TermId) -> (r: Result<(), CheckerError>)
    ensures
        r == if a == b {
            Ok(())
        } else {
            Err(CheckerError::Equality(EqualityError::ExpectedEqual(a, b)))
        },
{
    if a != b {
        return Err(CheckerError::Equality(EqualityError::ExpectedEqual(a, b)));
    }
    Ok(())
}

/// Checks that a term is the one expected.
pub fn assert_is_expected(got: TermId, expected: TermId) -> (r: Result<(), CheckerError>)
    ensures
        r == if got == expected {
            Ok(())
        } else {
            Err(CheckerError::Equality(EqualityError::ExpectedToBe { expected, got }))
        },
{
    if got != expected {
        return Err(CheckerError::Equality(EqualityError::ExpectedToBe { expected, got }));
    }
    Ok(())
}

/// Checks that `got` is the boolean constant `expected` of `pool`.
pub fn assert_is_bool_constant(pool: &TermPool, got: TermId, expected: bool) -> (r: Result<
    (),
    CheckerError,
>)
    requires
        pool.wf(),
    ensures
        r == if got == (if expected {
            pool.bool_ids().1
        } else {
            pool.bool_ids().2
        }) {
            Ok(())
        } else {
            Err(CheckerError::ExpectedBoolConstant(expected, got))
        },
{
    if got != pool.bool_constant(expected) {
        return Err(CheckerError::ExpectedBoolConstant(expected, got));
    }
    Ok(())
}

} // verus!
