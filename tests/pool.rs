use carcara::ast::{Binding, Identifier, Operator, Quantifier, Rational, Sort, Term, TermId, Terminal};
use carcara::pool::TermPool;

fn var(pool: &mut TermPool, name: &str, sort: TermId) -> TermId {
    pool.add(Term::Terminal(Terminal::Var(Identifier::Simple(name.to_owned()), sort)))
}

#[test]
fn equal_terms_share_one_id() {
    let mut pool = TermPool::new();
    let int = pool.add(Term::Sort(Sort::Int));
    let x = var(&mut pool, "x", int);
    let y = var(&mut pool, "y", int);
    let s1 = pool.add(Term::Op(Operator::Add, vec![x, y]));
    let n = pool.len();
    let s2 = pool.add(Term::Op(Operator::Add, vec![x, y]));
    assert_eq!(s1, s2);
    assert_eq!(pool.len(), n);
    let s3 = pool.add(Term::Op(Operator::Add, vec![y, x]));
    assert_ne!(s1, s3);
    let ids = pool.add_all(vec![Term::Op(Operator::Add, vec![x, y]), Term::Op(Operator::Add, vec![y, x])]);
    assert_eq!(ids, vec![s1, s3]);
}

#[test]
fn boolean_constants_are_preinterned() {
    let mut pool = TermPool::new();
    assert_eq!(pool.len(), 3);
    let bool_sort = pool.add(Term::Sort(Sort::Bool));
    let t = var(&mut pool, "true", bool_sort);
    let f = var(&mut pool, "false", bool_sort);
    assert_eq!(pool.len(), 3);
    assert_eq!(t, pool.bool_true());
    assert_eq!(f, pool.bool_false());
    assert_eq!(pool.bool_constant(true), t);
    assert_eq!(pool.bool_constant(false), f);
    assert_ne!(t, f);
    assert_eq!(*pool.sort(t), Sort::Bool);
}

#[test]
fn sorts_of_literals_and_operators() {
    let mut pool = TermPool::new();
    let int = pool.add(Term::Sort(Sort::Int));
    let real = pool.add(Term::Sort(Sort::Real));
    let one = pool.add(Term::Terminal(Terminal::Integer(1)));
    let half = pool.add(Term::Terminal(Terminal::Real(Rational::new(1, 2))));
    let s = pool.add(Term::Terminal(Terminal::String("s".to_owned())));
    assert_eq!(*pool.sort(one), Sort::Int);
    assert_eq!(*pool.sort(half), Sort::Real);
    assert_eq!(*pool.sort(s), Sort::String);
    let x = var(&mut pool, "x", int);
    let r = var(&mut pool, "r", real);
    let ints = pool.add(Term::Op(Operator::Add, vec![x, one]));
    let mixed = pool.add(Term::Op(Operator::Mult, vec![x, r]));
    assert_eq!(*pool.sort(ints), Sort::Int);
    assert_eq!(*pool.sort(mixed), Sort::Real);
    let div = pool.add(Term::Op(Operator::RealDiv, vec![x, one]));
    assert_eq!(*pool.sort(div), Sort::Real);
    let m = pool.add(Term::Op(Operator::Mod, vec![x, one]));
    assert_eq!(*pool.sort(m), Sort::Int);
    let lt = pool.add(Term::Op(Operator::LessThan, vec![x, one]));
    assert_eq!(*pool.sort(lt), Sort::Bool);
    let ite = pool.add(Term::Op(Operator::Ite, vec![lt, r, half]));
    assert_eq!(*pool.sort(ite), Sort::Real);
}

#[test]
fn sorts_of_arrays_applications_and_binders() {
    let mut pool = TermPool::new();
    let int = pool.add(Term::Sort(Sort::Int));
    let real = pool.add(Term::Sort(Sort::Real));
    let arr_sort = pool.add(Term::Sort(Sort::Array(int, real)));
    let a = var(&mut pool, "a", arr_sort);
    let i = var(&mut pool, "i", int);
    let sel = pool.add(Term::Op(Operator::Select, vec![a, i]));
    assert_eq!(*pool.sort(sel), Sort::Real);
    let v = var(&mut pool, "v", real);
    let st = pool.add(Term::Op(Operator::Store, vec![a, i, v]));
    assert_eq!(*pool.sort(st), Sort::Array(int, real));

    let fsort = pool.add(Term::Sort(Sort::Function(vec![int, real])));
    let f = var(&mut pool, "f", fsort);
    let app = pool.add(Term::App(f, vec![i]));
    assert_eq!(*pool.sort(app), Sort::Real);

    let body = pool.add(Term::Op(Operator::ToReal, vec![i]));
    let lam = pool.add(Term::Lambda(vec![Binding { name: "i".to_owned(), term: int }], body));
    assert_eq!(*pool.sort(lam), Sort::Function(vec![int, real]));

    let eq = pool.add(Term::Op(Operator::Equals, vec![i, i]));
    let q = pool.add(Term::Quant(Quantifier::Forall, vec![Binding { name: "i".to_owned(), term: int }], eq));
    assert_eq!(*pool.sort(q), Sort::Bool);
    let ch = pool.add(Term::Choice(Binding { name: "i".to_owned(), term: int }, eq));
    assert_eq!(*pool.sort(ch), Sort::Int);
    let lt = pool.add(Term::Let(vec![Binding { name: "w".to_owned(), term: v }], body));
    assert_eq!(*pool.sort(lt), Sort::Real);
}

#[test]
fn free_vars_of_binders() {
    let mut pool = TermPool::new();
    let int = pool.add(Term::Sort(Sort::Int));
    let x = var(&mut pool, "x", int);
    let y = var(&mut pool, "y", int);
    let one = pool.add(Term::Terminal(Terminal::Integer(1)));
    let sum = pool.add(Term::Op(Operator::Add, vec![x, y, one]));
    let eq = pool.add(Term::Op(Operator::Equals, vec![sum, x]));
    let mut fv = pool.free_vars(eq);
    fv.sort();
    assert_eq!(fv, vec![x, y]);
    // A second call gives the same set.
    let mut again = pool.free_vars(eq);
    again.sort();
    assert_eq!(again, fv);
    // Binding `x` removes exactly `x`.
    let q = pool.add(Term::Quant(Quantifier::Exists, vec![Binding { name: "x".to_owned(), term: int }], eq));
    assert_eq!(pool.free_vars(q), vec![y]);
    // A binding of another sort leaves `x` free.
    let real = pool.add(Term::Sort(Sort::Real));
    let q2 = pool.add(Term::Quant(Quantifier::Forall, vec![Binding { name: "x".to_owned(), term: real }], eq));
    let mut fv2 = pool.free_vars(q2);
    fv2.sort();
    assert_eq!(fv2, vec![x, y]);
    // `let` binds by the sort of the value.
    let l = pool.add(Term::Let(vec![Binding { name: "y".to_owned(), term: one }], eq));
    assert_eq!(pool.free_vars(l), vec![x]);
    let c = pool.add(Term::Choice(Binding { name: "y".to_owned(), term: int }, eq));
    assert_eq!(pool.free_vars(c), vec![x]);
    assert!(pool.free_vars(one).is_empty());
    assert!(pool.free_vars(int).is_empty());
}

#[test]
fn rationals_are_reduced() {
    let r = Rational::new(6, 8);
    assert_eq!((r.numer, r.denom), (3, 4));
    let z = Rational::new(0, 5);
    assert_eq!((z.numer, z.denom), (0, 1));
}

#[test]
fn default_pool_is_a_new_pool() {
    let pool = TermPool::default();
    assert_eq!(pool.len(), 3);
    assert_ne!(pool.bool_true(), pool.bool_false());
}

#[test]
fn adding_a_lambda_may_add_its_return_sort() {
    let mut pool = TermPool::new();
    let int = pool.add(Term::Sort(Sort::Int));
    let i = var(&mut pool, "i", int);
    let body = pool.add(Term::Op(Operator::ToReal, vec![i]));
    let n = pool.len();
    let lam = pool.add(Term::Lambda(vec![Binding { name: "i".to_owned(), term: int }], body));
    assert_eq!(pool.len(), n + 2);
    let real = pool.add(Term::Sort(Sort::Real));
    assert_eq!(real, n);
    assert_eq!(lam, n + 1);
}
