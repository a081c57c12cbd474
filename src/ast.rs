//! Terms, sorts and proof commands. Terms live in a [`crate::pool::TermPool`]
//! and refer to their subterms by id (an index into the pool).
use vstd::prelude::*;

verus! {

/// The id of a term interned in a pool.
pub type TermId = usize;

/// The built-in operators.
#[derive(Debug, Clone, Copy, PartialEq, Eq, Hash, Structural)]
pub enum Operator {
    Not,
    Implies,
    And,
    Or,
    Xor,
    Equals,
    Distinct,
    LessThan,
    GreaterThan,
    LessEq,
    GreaterEq,
    IsInt,
    Ite,
    Add,
    Sub,
    Mult,
    RealDiv,
    IntDiv,
    Mod,
    Abs,
    ToReal,
    ToInt,
    Select,
    Store,
}

/// The kind of a quantifier.
#[derive(Debug, Clone, Copy, PartialEq, Eq, Hash, Structural)]
pub enum Quantifier {
    Forall,
    Exists,
}

/// An index of an indexed identifier.
#[derive(Debug, Clone, PartialEq, Eq, Hash)]
pub enum Index {
    Numeral(u64),
    Symbol(String),
}

/// An identifier: a plain symbol, or a symbol with indices.
#[derive(Debug, Clone, PartialEq, Eq, Hash)]
pub enum Identifier {
    Simple(String),
    Indexed(String, Vec<Index>),
}

/// A rational literal, kept in lowest terms with a positive denominator.
#[derive(Debug, Clone, Copy, PartialEq, Eq, Hash, Structural)]
pub struct Rational {
    pub numer: u64,
    pub denom: u64,
}

/// Whether `n` and `d` have no common divisor above one.
pub open spec fn coprime(n: int, d: int) -> bool {
    forall|k: int| k > 1 ==> !(#[trigger] (n % k) == 0 && d % k == 0)
}

/// Relies on `num_rational::Ratio::new`: the same value in lowest terms, with a positive
/// denominator. It panics on a zero denominator.
#[verifier::external_body]
fn reduce_ratio(numer: u64, denom: u64) -> (r: (u64, u64))
    requires
        denom != 0,
    ensures
        r.1 > 0,
        r.1 <= denom,
        r.0 as int * denom as int == numer as int * r.1 as int,
        coprime(r.0 as int, r.1 as int),
{
    let q = num_rational::Ratio::new(numer, denom);
    (*q.numer(), *q.denom())
}

impl Rational {
    /// The rational `numer / denom`, in lowest terms.
    pub fn new(numer: u64, denom: u64) -> (r: Rational)
        requires
            denom != 0,
        ensures
            r.denom > 0,
            r.numer as int * denom as int == numer as int * r.denom as int,
            coprime(r.numer as int, r.denom as int),
    {
        let (n, d) = reduce_ratio(numer, denom);
        Rational { numer: n, denom: d }
    }
}

/// A leaf of a term.
#[derive(Debug, Clone, PartialEq, Eq, Hash)]
pub enum Terminal {
    Integer(u64),
    Real(Rational),
    String(String),
    /// A variable or constant, with the id of its sort term.
    Var(Identifier, TermId),
}

/// A sort. The components of `Array` and `Function` are ids of sort terms.
#[derive(Debug, Clone, PartialEq, Eq, Hash)]
pub enum Sort {
    Bool,
    Int,
    Real,
    String,
    /// A sort declared by the problem, such as `T` in `(declare-sort T 0)`.
    Atom(String),
    Array(TermId, TermId),
    /// The domain sorts followed by the return sort.
    Function(Vec<TermId>),
}

/// A variable bound by a binder: its name and the id of a term (of its sort term in
/// quantifiers, `choice` and `lambda`; of the bound value in `let`).
#[derive(Debug, Clone, PartialEq, Eq, Hash)]
pub struct Binding {
    pub name: String,
    pub term: TermId,
}

/// A term. Subterms are given by their ids in the pool.
#[derive(Debug, Clone, PartialEq, Eq, Hash)]
pub enum Term {
    Terminal(Terminal),
    App(TermId, Vec<TermId>),
    Op(Operator, Vec<TermId>),
    Sort(Sort),
    Quant(Quantifier, Vec<Binding>, TermId),
    Choice(Binding, TermId),
    Let(Vec<Binding>, TermId),
    Lambda(Vec<Binding>, TermId),
}

// The mathematical values of the types above.

pub enum IndexV {
    Numeral(u64),
    Symbol(Seq<char>),
}

pub enum IdentifierV {
    Simple(Seq<char>),
    Indexed(Seq<char>, Seq<IndexV>),
}

pub enum TerminalV {
    Integer(u64),
    Real(u64, u64),
    Str(Seq<char>),
    Var(IdentifierV, TermId),
}

pub enum SortV {
    Bool,
    Int,
    Real,
    Str,
    Atom(Seq<char>),
    Array(TermId, TermId),
    Function(Seq<TermId>),
}

pub enum TermV {
    Terminal(TerminalV),
    App(TermId, Seq<TermId>),
    Op(Operator, Seq<TermId>),
    Sort(SortV),
    Quant(Quantifier, Seq<(Seq<char>, TermId)>, TermId),
    Choice((Seq<char>, TermId), TermId),
    Let(Seq<(Seq<char>, TermId)>, TermId),
    Lambda(Seq<(Seq<char>, TermId)>, TermId),
}

pub open spec fn binding_view(b: Binding) -> (Seq<char>, TermId) {
    (b.name@, b.term)
}

pub open spec fn bindings_view(bs: Seq<Binding>) -> Seq<(Seq<char>, TermId)> {
    bs.map_values(|b: Binding| binding_view(b))
}

impl View for Index {
    type V = IndexV;

    open spec fn view(&self) -> IndexV {
        match self {
            Index::Numeral(n) => IndexV::Numeral(*n),
            Index::Symbol(s) => IndexV::Symbol(s@),
        }
    }
}

impl View for Identifier {
    type V = IdentifierV;

    open spec fn view(&self) -> IdentifierV {
        match self {
            Identifier::Simple(s) => IdentifierV::Simple(s@),
            Identifier::Indexed(s, idx) => IdentifierV::Indexed(
                s@,
                idx@.map_values(|i: Index| i@),
            ),
        }
    }
}

impl View for Terminal {
    type V = TerminalV;

    open spec fn view(&self) -> TerminalV {
        match self {
            Terminal::Integer(n) => TerminalV::Integer(*n),
            Terminal::Real(r) => TerminalV::Real(r.numer, r.denom),
            Terminal::String(s) => TerminalV::Str(s@),
            Terminal::Var(i, s) => TerminalV::Var(i@, *s),
        }
    }
}

impl View for Sort {
    type V = SortV;

    open spec fn view(&self) -> SortV {
        match self {
            Sort::Bool => SortV::Bool,
            Sort::Int => SortV::Int,
            Sort::Real => SortV::Real,
            Sort::String => SortV::Str,
            Sort::Atom(s) => SortV::Atom(s@),
            Sort::Array(k, v) => SortV::Array(*k, *v),
            Sort::Function(v) => SortV::Function(v@),
        }
    }
}

impl View for Term {
    type V = TermV;

    open spec fn view(&self) -> TermV {
        match self {
            Term::Terminal(t) => TermV::Terminal(t@),
            Term::App(f, args) => TermV::App(*f, args@),
            Term::Op(op, args) => TermV::Op(*op, args@),
            Term::Sort(s) => TermV::Sort(s@),
            Term::Quant(q, bs, body) => TermV::Quant(*q, bindings_view(bs@), *body),
            Term::Choice(b, body) => TermV::Choice(binding_view(*b), *body),
            Term::Let(bs, body) => TermV::Let(bindings_view(bs@), *body),
            Term::Lambda(bs, body) => TermV::Lambda(bindings_view(bs@), *body),
        }
    }
}

impl Binding {
    pub fn duplicate(&self) -> (r: Binding)
        ensures
            binding_view(r) == binding_view(*self),
    {
        Binding { name: self.name.clone(), term: self.term }
    }
}

/// A copy of a list of bindings.
pub fn duplicate_bindings(bs: &Vec<Binding>) -> (r: Vec<Binding>)
    ensures
        bindings_view(r@) == bindings_view(bs@),
{
    let mut r: Vec<Binding> = Vec::new();
    let mut k: usize = 0;
    while k < bs.len()
        invariant
            k <= bs.len(),
            r.len() == k,
            forall|j: int| 0 <= j < k ==> binding_view(#[trigger] r@[j]) == binding_view(bs@[j]),
        decreases bs.len() - k,
    {
        r.push(bs[k].duplicate());
        k += 1;
    }
    assert(bindings_view(r@) =~= bindings_view(bs@));
    r
}

/// A copy of a list of ids.
pub fn duplicate_ids(v: &[TermId]) -> (r: Vec<TermId>)
    ensures
        r@ == v@,
{
    let mut r: Vec<TermId> = Vec::new();
    let mut k: usize = 0;
    while k < v.len()
        invariant
            k <= v.len(),
            r@ == v@.take(k as int),
        decreases v.len() - k,
    {
        r.push(v[k]);
        k += 1;
        assert(r@ =~= v@.take(k as int));
    }
    assert(v@.take(v.len() as int) =~= v@);
    r
}

impl Index {
    pub fn duplicate(&self) -> (r: Index)
        ensures
            r@ == self@,
    {
        match self {
            Index::Numeral(n) => Index::Numeral(*n),
            Index::Symbol(s) => Index::Symbol(s.clone()),
        }
    }
}

impl Identifier {
    pub fn duplicate(&self) -> (r: Identifier)
        ensures
            r@ == self@,
    {
        match self {
            Identifier::Simple(s) => Identifier::Simple(s.clone()),
            Identifier::Indexed(s, idx) => {
                let mut r: Vec<Index> = Vec::new();
                let mut k: usize = 0;
                while k < idx.len()
                    invariant
                        k <= idx.len(),
                        r.len() == k,
                        forall|j: int| 0 <= j < k ==> (#[trigger] r@[j])@ == idx@[j]@,
                    decreases idx.len() - k,
                {
                    r.push(idx[k].duplicate());
                    k += 1;
                }
                assert(r@.map_values(|i: Index| i@) =~= idx@.map_values(|i: Index| i@));
                Identifier::Indexed(s.clone(), r)
            },
        }
    }
}

impl Terminal {
    pub fn duplicate(&self) -> (r: Terminal)
        ensures
            r@ == self@,
    {
        match self {
            Terminal::Integer(n) => Terminal::Integer(*n),
            Terminal::Real(q) => Terminal::Real(*q),
            Terminal::String(s) => Terminal::String(s.clone()),
            Terminal::Var(i, s) => Terminal::Var(i.duplicate(), *s),
        }
    }
}

impl Sort {
    pub fn duplicate(&self) -> (r: Sort)
        ensures
            r@ == self@,
    {
        match self {
            Sort::Bool => Sort::Bool,
            Sort::Int => Sort::Int,
            Sort::Real => Sort::Real,
            Sort::String => Sort::String,
            Sort::Atom(s) => Sort::Atom(s.clone()),
            Sort::Array(k, v) => Sort::Array(*k, *v),
            Sort::Function(v) => Sort::Function(duplicate_ids(v)),
        }
    }
}

impl Term {
    pub fn duplicate(&self) -> (r: Term)
        ensures
            r@ == self@,
    {
        match self {
            Term::Terminal(t) => Term::Terminal(t.duplicate()),
            Term::App(f, args) => Term::App(*f, duplicate_ids(args)),
            Term::Op(op, args) => Term::Op(*op, duplicate_ids(args)),
            Term::Sort(s) => Term::Sort(s.duplicate()),
            Term::Quant(q, bs, body) => Term::Quant(*q, duplicate_bindings(bs), *body),
            Term::Choice(b, body) => Term::Choice(b.duplicate(), *body),
            Term::Let(bs, body) => Term::Let(duplicate_bindings(bs), *body),
            Term::Lambda(bs, body) => Term::Lambda(duplicate_bindings(bs), *body),
        }
    }
}

impl Sort {
    pub fn bool() -> (r: Sort)
        ensures
            r@ == SortV::Bool,
    {
        Sort::Bool
    }

    pub fn int_sort() -> (r: Sort)
        ensures
            r@ == SortV::Int,
    {
        Sort::Int
    }

    pub fn real_sort() -> (r: Sort)
        ensures
            r@ == SortV::Real,
    {
        Sort::Real
    }

    pub fn string() -> (r: Sort)
        ensures
            r@ == SortV::Str,
    {
        Sort::String
    }
}

/// A literal argument of a rule.
#[derive(Debug, Clone, PartialEq, Eq)]
pub enum ProofArg {
    Term(TermId),
    Assign(String, TermId),
}

/// A step: a clause derived by a rule from premises.
#[derive(Debug, PartialEq, Eq)]
pub struct ProofStep {
    pub id: String,
    pub clause: Vec<TermId>,
    pub rule: String,
    /// The premises, as `(depth, offset)` references.
    pub premises: Vec<(usize, usize)>,
    pub args: Vec<ProofArg>,
    pub discharge: Vec<(usize, usize)>,
}

/// A subproof: nested commands, the last of which closes it.
#[derive(Debug, PartialEq, Eq)]
pub struct Subproof {
    pub commands: Vec<ProofCommand>,
    pub assignment_args: Vec<Binding>,
    pub variable_args: Vec<Binding>,
}

/// A node of the proof tree.
#[derive(Debug, PartialEq, Eq)]
pub enum ProofCommand {
    Assume { id: String, term: TermId },
    Step(ProofStep),
    Subproof(Subproof),
    /// The end of a subproof, as the schedule iterator yields it.
    Closing,
}

/// The clause that a command concludes. A subproof concludes the clause of its
/// last command, when that is a step or an assumption.
pub open spec fn command_clause(c: ProofCommand) -> Seq<TermId> {
    match c {
        ProofCommand::Assume { term, .. } => seq![term],
        ProofCommand::Step(s) => s.clause@,
        ProofCommand::Subproof(sp) => if sp.commands@.len() > 0 {
            match sp.commands@.last() {
                ProofCommand::Assume { term, .. } => seq![term],
                ProofCommand::Step(s) => s.clause@,
                _ => Seq::empty(),
            }
        } else {
            Seq::empty()
        },
        ProofCommand::Closing => Seq::empty(),
    }
}

/// The name that a command is known by. A subproof is known by its last command.
pub open spec fn command_id(c: ProofCommand) -> Seq<char> {
    match c {
        ProofCommand::Assume { id, .. } => id@,
        ProofCommand::Step(s) => s.id@,
        ProofCommand::Subproof(sp) => if sp.commands@.len() > 0 {
            match sp.commands@.last() {
                ProofCommand::Assume { id, .. } => id@,
                ProofCommand::Step(s) => s.id@,
                _ => Seq::empty(),
            }
        } else {
            Seq::empty()
        },
        ProofCommand::Closing => Seq::empty(),
    }
}

fn clause_of_leaf(c: &ProofCommand) -> (r: Vec<TermId>)
    requires
        !(c is Subproof),
    ensures
        r@ == command_clause(*c),
{
    match c {
        ProofCommand::Assume { term, .. } => {
            let r = vec![*term];
            proof {
                assert(r@ =~= seq![*term]);
            }
            r
        },
        ProofCommand::Step(s) => duplicate_ids(&s.clause),
        _ => Vec::new(),
    }
}

fn id_of_leaf(c: &ProofCommand) -> (r: String)
    requires
        !(c is Subproof),
    ensures
        r@ == command_id(*c),
{
    match c {
        ProofCommand::Assume { id, .. } => id.clone(),
        ProofCommand::Step(s) => s.id.clone(),
        _ => String::new(),
    }
}

impl ProofCommand {
    /// The clause this command concludes.
    pub fn clause(&self) -> (r: Vec<TermId>)
        ensures
            r@ == command_clause(*self),
    {
        match self {
            ProofCommand::Subproof(sp) => {
                if sp.commands.len() > 0 {
                    let last = &sp.commands[sp.commands.len() - 1];
                    match last {
                        ProofCommand::Subproof(_) => Vec::new(),
                        _ => clause_of_leaf(last),
                    }
                } else {
                    Vec::new()
                }
            },
            _ => clause_of_leaf(self),
        }
    }

    /// The name of this command.
    pub fn id(&self) -> (r: String)
        ensures
            r@ == command_id(*self),
    {
        match self {
            ProofCommand::Subproof(sp) => {
                if sp.commands.len() > 0 {
                    let last = &sp.commands[sp.commands.len() - 1];
                    match last {
                        ProofCommand::Subproof(_) => String::new(),
                        _ => id_of_leaf(last),
                    }
                } else {
                    String::new()
                }
            },
            _ => id_of_leaf(self),
        }
    }
}

} // verus!
