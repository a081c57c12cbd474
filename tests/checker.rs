use carcara::ast::{Operator, ProofArg, ProofCommand, ProofStep};
use carcara::checker::{
    assert_clause_len, assert_is_expected, assert_num_args, assert_num_premises,
    assert_operation_len, get_premise_term, CheckerError, EqualityError, Premise, Range,
};

fn premise(id: &str, clause: Vec<usize>) -> Premise {
    Premise { id: id.to_owned(), clause, index: (0, 0) }
}

#[test]
fn ranges() {
    assert!(Range::exactly(2).contains(2));
    assert!(!Range::exactly(2).contains(3));
    assert!(Range::at_least(3).contains(7));
    assert!(!Range::at_least(3).contains(2));
    assert!(Range::between(1, 2).contains(1));
    assert!(!Range::between(1, 2).contains(0));
}

#[test]
fn count_assertions() {
    let ps = vec![premise("h1", vec![1]), premise("h2", vec![2])];
    assert!(assert_num_premises(&ps, Range::exactly(2)).is_ok());
    assert_eq!(
        assert_num_premises(&ps, Range::exactly(1)),
        Err(CheckerError::WrongNumberOfPremises(Range::exactly(1), 2))
    );
    assert!(assert_clause_len(&[1, 2, 3], Range::at_least(3)).is_ok());
    assert_eq!(
        assert_clause_len(&[1], Range::at_least(3)),
        Err(CheckerError::WrongLengthOfClause(Range::at_least(3), 1))
    );
    let args = vec![ProofArg::Term(4)];
    assert!(assert_num_args(&args, Range::between(0, 1)).is_ok());
    assert_eq!(
        assert_num_args(&args, Range::exactly(0)),
        Err(CheckerError::WrongNumberOfArgs(Range::exactly(0), 1))
    );
    assert!(assert_operation_len(Operator::Not, &[5], Range::exactly(1)).is_ok());
    assert_eq!(
        assert_operation_len(Operator::Not, &[5, 6], Range::exactly(1)),
        Err(CheckerError::WrongNumberOfTermsInOp(Operator::Not, Range::exactly(1), 2))
    );
}

#[test]
fn equality_assertions() {
    assert!(carcara::checker::assert_eq(3, 3).is_ok());
    assert_eq!(carcara::checker::assert_eq(3, 4), Err(CheckerError::Equality(EqualityError::ExpectedEqual(3, 4))));
    assert!(assert_is_expected(5, 5).is_ok());
    assert_eq!(
        assert_is_expected(5, 6),
        Err(CheckerError::Equality(EqualityError::ExpectedToBe { expected: 6, got: 5 }))
    );
}

#[test]
fn premises_and_their_terms() {
    let cmd = ProofCommand::Step(ProofStep {
        id: "t4".to_owned(),
        clause: vec![8, 9],
        rule: "resolution".to_owned(),
        premises: vec![],
        args: vec![],
        discharge: vec![],
    });
    let p = Premise::new((1, 2), &cmd);
    assert_eq!(p.id, "t4");
    assert_eq!(p.clause, vec![8, 9]);
    assert_eq!(p.index, (1, 2));
    assert_eq!(
        get_premise_term(&p),
        Err(CheckerError::WrongLengthOfPremiseClause("t4".to_owned(), Range::exactly(1), 2))
    );
    let h = Premise::new((0, 0), &ProofCommand::Assume { id: "h1".to_owned(), term: 7 });
    assert_eq!(get_premise_term(&h), Ok(7));
}

#[test]
fn boolean_constant_assertion() {
    let pool = carcara::pool::TermPool::new();
    let t = pool.bool_true();
    assert!(carcara::checker::assert_is_bool_constant(&pool, t, true).is_ok());
    assert_eq!(
        carcara::checker::assert_is_bool_constant(&pool, t, false),
        Err(CheckerError::ExpectedBoolConstant(false, t))
    );
}
