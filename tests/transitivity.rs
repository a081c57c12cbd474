use carcara::ast::{Identifier, Operator, ProofCommand, Sort, Term, TermId, Terminal};
use carcara::checker::{CheckerError, Premise, RuleArgs};
use carcara::pool::TermPool;
use carcara::transitivity;

/// A pool with the sort `T` and the constants `a` to `e` of that sort.
struct Fixture {
    pool: TermPool,
    consts: Vec<TermId>,
}

impl Fixture {
    fn new() -> Fixture {
        let mut pool = TermPool::new();
        let t = pool.add(Term::Sort(Sort::Atom("T".to_owned())));
        let consts = ["a", "b", "c", "d", "e"]
            .iter()
            .map(|n| pool.add(Term::Terminal(Terminal::Var(Identifier::Simple(n.to_string()), t))))
            .collect();
        Fixture { pool, consts }
    }

    fn c(&self, name: char) -> TermId {
        self.consts[(name as u8 - b'a') as usize]
    }

    /// `(= x y)`
    fn eq(&mut self, x: char, y: char) -> TermId {
        let args = vec![self.c(x), self.c(y)];
        self.pool.add(Term::Op(Operator::Equals, args))
    }

    /// `(not (= x y))`
    fn neq(&mut self, x: char, y: char) -> TermId {
        let e = self.eq(x, y);
        self.pool.add(Term::Op(Operator::Not, vec![e]))
    }

    /// A clause written as literals `"ab"` for `(= a b)` and `"!ab"` for `(not (= a b))`.
    fn clause(&mut self, lits: &[&str]) -> Vec<TermId> {
        lits.iter()
            .map(|l| {
                let cs: Vec<char> = l.chars().collect();
                if cs[0] == '!' {
                    self.neq(cs[1], cs[2])
                } else {
                    self.eq(cs[0], cs[1])
                }
            })
            .collect()
    }

    fn check_eq_transitive(&mut self, lits: &[&str]) -> Result<(), CheckerError> {
        let clause = self.clause(lits);
        let args = RuleArgs {
            conclusion: &clause,
            premises: &[],
            args: &[],
            previous_command: None,
            discharge: &[],
        };
        transitivity::eq_transitive(args, &self.pool)
    }

    fn premises(&mut self, lits: &[&str]) -> Vec<Premise> {
        lits.iter()
            .enumerate()
            .map(|(i, p)| Premise { id: format!("h{}", i + 1), clause: self.clause(&[p]), index: (0, i) })
            .collect()
    }

    fn elaborate(&mut self, premises: &[&str], conclusion: &[&str]) -> Result<ProofCommand, CheckerError> {
        let premises = self.premises(premises);
        let clause = self.clause(conclusion);
        let args = RuleArgs {
            conclusion: &clause,
            premises: &premises,
            args: &[],
            previous_command: None,
            discharge: &[],
        };
        transitivity::reconstruct_trans(args, &mut self.pool, "t3".to_owned(), 0)
    }

    fn check_trans(&mut self, premises: &[&str], conclusion: &[&str]) -> Result<(), CheckerError> {
        let premises: Vec<Premise> = premises
            .iter()
            .enumerate()
            .map(|(i, p)| Premise {
                id: format!("h{}", i + 1),
                clause: self.clause(&[p]),
                index: (0, i),
            })
            .collect();
        let clause = self.clause(conclusion);
        let args = RuleArgs {
            conclusion: &clause,
            premises: &premises,
            args: &[],
            previous_command: None,
            discharge: &[],
        };
        transitivity::trans(args, &self.pool)
    }
}

#[test]
fn eq_transitive() {
    let cases: &[(&[&str], bool)] = &[
        // Simple working examples
        (&["!ab", "!bc", "ac"], true),
        (&["!ab", "!bc", "!cd", "ad"], true),
        (&["!aa", "!aa", "aa"], true),
        // Inequality terms in different orders
        (&["!ab", "!cb", "!cd", "da"], true),
        (&["!ba", "!cb", "!dc", "ad"], true),
        // Clause term is not an inequality
        (&["ab", "!bc", "ac"], false),
        (&["!ab", "bc", "ac"], false),
        // Final term is not an equality
        (&["!ab", "!bc", "!ac"], false),
        // Clause is too small
        (&["!ab", "ab"], false),
        // Clause terms in different orders
        (&["!ab", "!cd", "!bc", "ad"], true),
        (&["!cd", "!bc", "!ab", "ad"], true),
        // Clause doesn't form transitive chain
        (&["!ab", "!cd", "ad"], false),
        (&["!ab", "!bb", "!cd", "ad"], false),
        (&["!ab", "!bc", "!cd", "ae"], false),
        (&["!ab", "!be", "!bc", "ac"], false),
    ];
    for (i, (lits, expected)) in cases.iter().enumerate() {
        let mut f = Fixture::new();
        let got = f.check_eq_transitive(lits).is_ok();
        assert_eq!(*expected, got, "test case \"eq_transitive\" index {} failed", i);
    }
}

#[test]
fn trans() {
    let cases: &[(&[&str], &[&str], bool)] = &[
        // Simple working examples
        (&["ab", "bc"], &["ac"], true),
        (&["ab", "bc", "cd"], &["ad"], true),
        (&["aa"], &["aa"], true),
        // Premises in different orders
        (&["ab", "cd", "bc"], &["ad"], true),
        (&["cd", "bc", "ab"], &["ad"], true),
        // Premise term is not an equality
        (&["ab", "!bc", "cd"], &["ad"], false),
        // Conclusion clause is of the wrong form
        (&["ab", "bc"], &["!ac"], false),
        (&["ab", "bc"], &["ac", "ca"], false),
    ];
    for (i, (premises, conclusion, expected)) in cases.iter().enumerate() {
        let mut f = Fixture::new();
        let got = f.check_trans(premises, conclusion).is_ok();
        assert_eq!(*expected, got, "test case \"trans\" index {} failed", i);
    }
}

#[test]
fn rejections_name_the_broken_link() {
    let mut f = Fixture::new();
    // (not (= a b)) (not (= c d)) (= a d): from a the chain reaches b and stops.
    assert_eq!(
        f.check_eq_transitive(&["!ab", "!cd", "ad"]),
        Err(CheckerError::BrokenTransitivityChain(f.c('b'), f.c('d')))
    );
    // (not (= a b)) (not (= b c)) (not (= c d)) (= a e): the chain ends at d, not e.
    assert_eq!(
        f.check_eq_transitive(&["!ab", "!bc", "!cd", "ae"]),
        Err(CheckerError::BrokenTransitivityChain(f.c('d'), f.c('e')))
    );
    let short = f.clause(&["!ab", "ab"]);
    assert_eq!(
        f.check_eq_transitive(&["!ab", "ab"]),
        Err(CheckerError::WrongLengthOfClause(carcara::checker::Range::at_least(3), 2))
    );
    assert_eq!(short.len(), 2);
    let ab = f.eq('a', 'b');
    assert_eq!(f.check_eq_transitive(&["ab", "!bc", "ac"]), Err(CheckerError::TermOfWrongForm(ab)));
}

#[test]
fn find_chain_reorders_into_a_chain() {
    let mut eqs = vec![(3, 4), (2, 3), (1, 2)];
    assert!(transitivity::find_chain((1, 4), &mut eqs).is_ok());
    assert_eq!(eqs, vec![(1, 2), (2, 3), (3, 4)]);
    let mut flipped = vec![(2, 1), (3, 2)];
    assert!(transitivity::find_chain((1, 3), &mut flipped).is_ok());
    assert_eq!(flipped, vec![(2, 1), (3, 2)]);
    let mut broken = vec![(1, 2), (2, 3)];
    assert_eq!(
        transitivity::find_chain((1, 5), &mut broken),
        Err(CheckerError::BrokenTransitivityChain(3, 5))
    );
    // Reflexive conclusions need no premise; extra premises are left in place.
    let mut extra = vec![(7, 8)];
    assert!(transitivity::find_chain((4, 4), &mut extra).is_ok());
    assert_eq!(extra, vec![(7, 8)]);
}

#[test]
fn reconstruct_chain_records_flips() {
    let mut eqs = vec![(2, 1), (2, 3)];
    let mut premises = vec![
        Premise { id: "h1".to_owned(), clause: vec![10], index: (0, 0) },
        Premise { id: "h2".to_owned(), clause: vec![11], index: (0, 1) },
    ];
    let mut flips = Vec::new();
    assert!(transitivity::reconstruct_chain((1, 3), &mut eqs, &mut premises, &mut flips).is_ok());
    assert_eq!(flips, vec![true, false]);
    assert_eq!(eqs, vec![(2, 1), (2, 3)]);
    let mut eqs = vec![(3, 2), (1, 2)];
    let mut premises = vec![
        Premise { id: "h1".to_owned(), clause: vec![10], index: (0, 0) },
        Premise { id: "h2".to_owned(), clause: vec![11], index: (0, 1) },
    ];
    let mut flips = Vec::new();
    assert!(transitivity::reconstruct_chain((1, 3), &mut eqs, &mut premises, &mut flips).is_ok());
    assert_eq!(flips, vec![false, true]);
    assert_eq!(eqs, vec![(1, 2), (3, 2)]);
    assert_eq!(premises[0].id, "h2");
    assert_eq!(premises[1].index, (0, 0));
}

#[test]
fn trans_elaboration_with_a_flip() {
    let mut f = Fixture::new();
    let cmd = f.elaborate(&["ba", "bc"], &["ac"]).unwrap();
    let ab = f.eq('a', 'b');
    let ac = f.eq('a', 'c');
    match cmd {
        ProofCommand::Subproof(sp) => {
            assert!(sp.assignment_args.is_empty());
            assert!(sp.variable_args.is_empty());
            assert_eq!(sp.commands.len(), 2);
            match &sp.commands[0] {
                ProofCommand::Step(s) => {
                    assert_eq!(s.id, "t3.t1");
                    assert_eq!(s.rule, "symm");
                    assert_eq!(s.premises, vec![(0, 0)]);
                    assert_eq!(s.clause, vec![ab]);
                }
                _ => panic!("expected a symm step"),
            }
            match &sp.commands[1] {
                ProofCommand::Step(s) => {
                    assert_eq!(s.id, "t3");
                    assert_eq!(s.rule, "trans");
                    assert_eq!(s.premises, vec![(1, 0), (0, 1)]);
                    assert_eq!(s.clause, vec![ac]);
                }
                _ => panic!("expected the trans step"),
            }
        }
        _ => panic!("expected a subproof"),
    }
    // The elaborated trans step checks.
    let resolved = vec![
        Premise { id: "t3.t1".to_owned(), clause: vec![ab], index: (1, 0) },
        Premise { id: "h2".to_owned(), clause: f.clause(&["bc"]), index: (0, 1) },
    ];
    let clause = vec![ac];
    let args = RuleArgs { conclusion: &clause, premises: &resolved, args: &[], previous_command: None, discharge: &[] };
    assert!(transitivity::trans(args, &f.pool).is_ok());
}

#[test]
fn trans_elaboration_without_flips() {
    let mut f = Fixture::new();
    match f.elaborate(&["bc", "ab"], &["ac"]).unwrap() {
        ProofCommand::Step(s) => {
            assert_eq!(s.id, "t3");
            assert_eq!(s.rule, "trans");
            assert_eq!(s.premises, vec![(0, 1), (0, 0)]);
            assert!(s.args.is_empty());
            assert!(s.discharge.is_empty());
        }
        _ => panic!("expected a single step"),
    }
    assert_eq!(
        f.elaborate(&["ab", "cd"], &["ad"]),
        Err(CheckerError::BrokenTransitivityChain(f.c('b'), f.c('d')))
    );
    assert!(matches!(
        f.elaborate(&["ab", "!bc"], &["ac"]),
        Err(CheckerError::TermOfWrongForm(_))
    ));
}

#[test]
fn reconstruct_chain_appends_flags_in_chain_order() {
    // a=1, b=2, c=3, d=4; premises (= b a), (= d c), (= c b) for (= a d).
    let mut eqs = vec![(2, 1), (4, 3), (3, 2)];
    let mut premises = vec![
        Premise { id: "h1".to_owned(), clause: vec![10], index: (0, 0) },
        Premise { id: "h2".to_owned(), clause: vec![11], index: (0, 1) },
        Premise { id: "h3".to_owned(), clause: vec![12], index: (0, 2) },
    ];
    let mut flips = vec![false];
    assert!(transitivity::reconstruct_chain((1, 4), &mut eqs, &mut premises, &mut flips).is_ok());
    assert_eq!(flips, vec![false, true, true, true]);
    assert_eq!(eqs, vec![(2, 1), (3, 2), (4, 3)]);
    let ids: Vec<&str> = premises.iter().map(|p| p.id.as_str()).collect();
    assert_eq!(ids, vec!["h1", "h3", "h2"]);
    // A link with equal sides, past the target, is not recorded.
    let mut eqs = vec![(1, 2), (2, 2)];
    let mut premises = vec![
        Premise { id: "h1".to_owned(), clause: vec![10], index: (0, 0) },
        Premise { id: "h2".to_owned(), clause: vec![11], index: (0, 1) },
    ];
    let mut flips = Vec::new();
    assert!(transitivity::reconstruct_chain((1, 2), &mut eqs, &mut premises, &mut flips).is_ok());
    assert_eq!(flips, vec![false]);
}

#[test]
fn trans_elaboration_names_symm_steps_in_order() {
    let mut f = Fixture::new();
    // (= b a), (= d c), (= c b) for (= a d): all three are read right to left.
    let cmd = f.elaborate(&["ba", "dc", "cb"], &["ad"]).unwrap();
    let ab = f.eq('a', 'b');
    let bc = f.eq('b', 'c');
    let cd = f.eq('c', 'd');
    match cmd {
        ProofCommand::Subproof(sp) => {
            assert_eq!(sp.commands.len(), 4);
            let expected = [("t3.t1", ab, (0, 0)), ("t3.t2", bc, (0, 2)), ("t3.t3", cd, (0, 1))];
            for (i, (id, clause, premise)) in expected.iter().enumerate() {
                match &sp.commands[i] {
                    ProofCommand::Step(s) => {
                        assert_eq!(s.id, *id);
                        assert_eq!(s.rule, "symm");
                        assert_eq!(s.clause, vec![*clause]);
                        assert_eq!(s.premises, vec![*premise]);
                    }
                    _ => panic!("expected a symm step"),
                }
            }
            match &sp.commands[3] {
                ProofCommand::Step(s) => assert_eq!(s.premises, vec![(1, 0), (1, 1), (1, 2)]),
                _ => panic!("expected the trans step"),
            }
        }
        _ => panic!("expected a subproof"),
    }
}

#[test]
fn failed_elaboration_leaves_the_pool_alone() {
    let mut f = Fixture::new();
    let _ = f.clause(&["ab", "cd", "ad", "ba", "dc"]);
    let n = f.pool.len();
    assert!(f.elaborate(&["ab", "cd"], &["ad"]).is_err());
    assert_eq!(f.pool.len(), n);
    let _ = f.elaborate(&["ba"], &["ab"]).unwrap();
    assert_eq!(f.pool.len(), n);
}
