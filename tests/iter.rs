use carcara::ast::{ProofCommand, ProofStep, Subproof};
use carcara::iter::{ScheduleIter, CLOSING_OFFSET};

fn step(id: &str) -> ProofCommand {
    ProofCommand::Step(ProofStep {
        id: id.to_owned(),
        clause: vec![],
        rule: "hole".to_owned(),
        premises: vec![],
        args: vec![],
        discharge: vec![],
    })
}

fn id_of(c: &ProofCommand) -> String {
    match c {
        ProofCommand::Closing => "closing".to_owned(),
        other => other.id(),
    }
}

#[test]
fn walks_nested_subproofs() {
    let proof = vec![
        ProofCommand::Assume { id: "h1".to_owned(), term: 0 },
        ProofCommand::Subproof(Subproof {
            commands: vec![step("t2.t1"), step("t2")],
            assignment_args: vec![],
            variable_args: vec![],
        }),
        step("t3"),
    ];
    let schedule = vec![(0, 0), (0, 1), (1, 0), (1, 1), (1, CLOSING_OFFSET), (0, 2)];
    let mut it = ScheduleIter::new(&proof, &schedule);
    assert_eq!(it.depth(), 0);
    assert!(!it.is_in_subproof());
    assert!(it.current_subproof().is_none());

    let mut seen = vec![];
    let mut ends = vec![];
    while let Some(c) = it.next() {
        seen.push(id_of(c));
        ends.push(it.is_end_step());
        if id_of(c) == "t2.t1" {
            assert_eq!(it.depth(), 1);
            assert!(it.is_in_subproof());
            assert_eq!(it.current_subproof().unwrap().len(), 2);
            assert_eq!(id_of(it.get_premise((0, 0))), "h1");
            assert_eq!(id_of(it.get_premise((1, 1))), "t2");
        }
    }
    assert_eq!(seen, vec!["h1", "t2", "t2.t1", "t2", "closing", "t3"]);
    assert_eq!(ends, vec![false, false, false, true, false, false]);
    assert_eq!(it.depth(), 0);
    assert!(it.next().is_none());
}
