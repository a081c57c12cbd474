//! The term pool: a hash-consing store in which every term has one id, with the
//! sort of each term computed when it is added and free variables computed on demand.
use crate::ast::{
    duplicate_bindings, Binding, Identifier, IdentifierV, Operator, Sort, SortV, Term, TermId,
    TermV, Terminal, TerminalV,
};
use ahash::AHashMap;
use vstd::prelude::*;

verus! {

/// `ahash`'s map, which the pool uses as its interning table.
#[verifier::external_type_specification]
#[verifier::external_body]
#[verifier::reject_recursive_types(K)]
#[verifier::reject_recursive_types(V)]
#[verifier::reject_recursive_types(S)]
pub struct ExAHashMap<K, V, S>(AHashMap<K, V, S>);

/// The hasher state that `AHashMap` is built with.
#[verifier::external_type_specification]
#[verifier::external_body]
pub struct ExRandomState(ahash::RandomState);

/// The interning table: from a term to its id.
pub type TermTable = AHashMap<Term, TermId>;

/// What a table holds: from the value of a term to its id.
pub uninterp spec fn table_contents(t: AHashMap<Term, TermId>) -> Map<TermV, TermId>;

/// Relies on `AHashMap::new`: a new map is empty.
#[verifier::external_body]
fn table_new() -> (r: TermTable)
    ensures
        table_contents(r).dom() == Set::<TermV>::empty(),
{
    AHashMap::new()
}

/// Relies on `AHashMap::get`: the id stored under a term equal to `t` (the derived
/// `Eq` and `Hash` of `Term` compare and hash by value).
#[verifier::external_body]
fn table_get(table: &TermTable, t: &Term) -> (r: Option<TermId>)
    ensures
        r matches Some(i) ==> table_contents(*table).contains_key(t@) && table_contents(
            *table,
        )[t@] == i,
        r is None ==> !table_contents(*table).contains_key(t@),
{
    table.get(t).copied()
}

/// Relies on `AHashMap::insert`: afterwards `t` maps to `id`, and nothing else changed.
#[verifier::external_body]
fn table_insert(table: &mut TermTable, t: Term, id: TermId)
    ensures
        table_contents(*final(table)) == table_contents(*old(table)).insert(t@, id),
{
    table.insert(t, id);
}

/// The free-variable cache: from a term's id to its free variables.
pub type FreeVarsCache = AHashMap<TermId, Vec<TermId>>;

/// What a free-variable cache holds: from an id to the ids of its free variables.
pub uninterp spec fn cache_contents(c: AHashMap<TermId, Vec<TermId>>) -> Map<TermId, Seq<TermId>>;

/// Relies on `AHashMap::new`: a new map is empty.
#[verifier::external_body]
fn cache_new() -> (r: FreeVarsCache)
    ensures
        cache_contents(r).dom() == Set::<TermId>::empty(),
{
    AHashMap::new()
}

/// Relies on `AHashMap::get`: a copy of the list stored under `t`, if any.
#[verifier::external_body]
fn cache_get(cache: &FreeVarsCache, t: TermId) -> (r: Option<Vec<TermId>>)
    ensures
        r matches Some(v) ==> cache_contents(*cache).contains_key(t) && v@ == cache_contents(
            *cache,
        )[t],
        r is None ==> !cache_contents(*cache).contains_key(t),
{
    cache.get(&t).cloned()
}

/// Relies on `AHashMap::insert`: afterwards `t` maps to `v`, and nothing else changed.
#[verifier::external_body]
fn cache_insert(cache: &mut FreeVarsCache, t: TermId, v: Vec<TermId>)
    ensures
        cache_contents(*final(cache)) == cache_contents(*old(cache)).insert(t, v@),
{
    cache.insert(t, v);
}

/// Whether every id that `t` refers to is below `n`.
pub open spec fn refs_below(t: TermV, n: int) -> bool {
    match t {
        TermV::Terminal(TerminalV::Var(_, s)) => s < n,
        TermV::Terminal(_) => true,
        TermV::App(f, args) => f < n && forall|k: int| 0 <= k < args.len() ==> args[k] < n,
        TermV::Op(_, args) => forall|k: int| 0 <= k < args.len() ==> args[k] < n,
        TermV::Sort(s) => sort_refs_below(s, n),
        TermV::Quant(_, bs, body) => body < n && forall|k: int| 0 <= k < bs.len() ==> bs[k].1 < n,
        TermV::Choice(b, body) => b.1 < n && body < n,
        TermV::Let(bs, body) => body < n && forall|k: int| 0 <= k < bs.len() ==> bs[k].1 < n,
        TermV::Lambda(bs, body) => body < n && forall|k: int| 0 <= k < bs.len() ==> bs[k].1 < n,
    }
}

/// Whether every id that the sort `s` refers to is below `n`.
pub open spec fn sort_refs_below(s: SortV, n: int) -> bool {
    match s {
        SortV::Array(k, v) => k < n && v < n,
        SortV::Function(v) => forall|k: int| 0 <= k < v.len() ==> v[k] < n,
        _ => true,
    }
}

/// Whether the term with id `i` is a sort term.
pub open spec fn is_sort_term(ts: Seq<TermV>, i: int) -> bool {
    0 <= i < ts.len() && ts[i] is Sort
}

/// The sort that the sort term with id `i` denotes.
pub open spec fn sort_denoted(ts: Seq<TermV>, i: int) -> SortV {
    ts[i]->Sort_0
}

/// The number of arguments that an operator takes.
pub open spec fn arity_ok(op: Operator, n: int) -> bool {
    match op {
        Operator::Not | Operator::IsInt | Operator::Abs | Operator::ToReal | Operator::ToInt => n
            == 1,
        Operator::Select | Operator::Mod => n == 2,
        Operator::Ite | Operator::Store => n == 3,
        Operator::Sub | Operator::And | Operator::Or | Operator::Add | Operator::Mult => n >= 1,
        _ => n >= 2,
    }
}

/// Whether the argument sorts of an operator application allow its sort to be inferred.
pub open spec fn op_args_ok(ts: Seq<TermV>, ss: Seq<SortV>, op: Operator, args: Seq<TermId>) -> bool {
    &&& arity_ok(op, args.len() as int)
    &&& op == Operator::Select ==> ss[args[0] as int] is Array && is_sort_term(
        ts,
        ss[args[0] as int]->Array_1 as int,
    )
}

/// Whether `t` may be added to a pool whose terms are `ts`, with sorts `ss`: every id it
/// refers to is in the pool, and the operator and sort rules hold of it.
pub open spec fn term_valid(ts: Seq<TermV>, ss: Seq<SortV>, t: TermV) -> bool {
    &&& refs_below(t, ts.len() as int)
    &&& match t {
        TermV::Terminal(TerminalV::Var(_, s)) => is_sort_term(ts, s as int),
        TermV::Op(op, args) => op_args_ok(ts, ss, op, args),
        TermV::App(f, _) => ss[f as int] is Function && ss[f as int]->Function_0.len() > 0
            && is_sort_term(ts, ss[f as int]->Function_0.last() as int),
        TermV::Choice(b, _) => is_sort_term(ts, b.1 as int),
        TermV::Quant(_, bs, _) => forall|k: int| 0 <= k < bs.len() ==> is_sort_term(ts, bs[k].1 as int),
        TermV::Lambda(bs, _) => forall|k: int| 0 <= k < bs.len() ==> is_sort_term(ts, bs[k].1 as int),
        _ => true,
    }
}

/// The sort rule: `s` is the sort of the term `t` in a pool with terms `ts` and sorts `ss`.
pub open spec fn sort_rule(ts: Seq<TermV>, ss: Seq<SortV>, t: TermV, s: SortV) -> bool {
    match t {
        TermV::Terminal(TerminalV::Integer(_)) => s == SortV::Int,
        TermV::Terminal(TerminalV::Real(_, _)) => s == SortV::Real,
        TermV::Terminal(TerminalV::Str(_)) => s == SortV::Str,
        TermV::Terminal(TerminalV::Var(_, v)) => s == sort_denoted(ts, v as int),
        TermV::Op(op, args) => match op {
            Operator::Ite => s == ss[args[1] as int],
            Operator::Add | Operator::Sub | Operator::Mult => s == if exists|k: int|
                0 <= k < args.len() && ss[args[k] as int] == SortV::Real {
                SortV::Real
            } else {
                SortV::Int
            },
            Operator::RealDiv | Operator::ToReal => s == SortV::Real,
            Operator::IntDiv | Operator::Mod | Operator::Abs | Operator::ToInt => s == SortV::Int,
            Operator::Select => s == sort_denoted(ts, ss[args[0] as int]->Array_1 as int),
            Operator::Store => s == ss[args[0] as int],
            _ => s == SortV::Bool,
        },
        TermV::App(f, _) => s == sort_denoted(ts, ss[f as int]->Function_0.last() as int),
        TermV::Sort(x) => s == x,
        TermV::Quant(_, _, _) => s == SortV::Bool,
        TermV::Choice(b, _) => s == sort_denoted(ts, b.1 as int),
        TermV::Let(_, body) => s == ss[body as int],
        TermV::Lambda(bs, body) => s is Function && s->Function_0.len() == bs.len() + 1 && (forall|
            k: int,
        |
            0 <= k < bs.len() ==> s->Function_0[k] == bs[k].1) && is_sort_term(
            ts,
            s->Function_0.last() as int,
        ) && sort_denoted(ts, s->Function_0.last() as int) == ss[body as int],
    }
}

/// Whether the term `v` is the simple variable that one of the bindings `bs` of a
/// quantifier, lambda or choice introduces (same name, same sort term).
pub open spec fn bound_by(ts: Seq<TermV>, bs: Seq<(Seq<char>, TermId)>, v: TermId) -> bool {
    v < ts.len() && exists|k: int|
        0 <= k < bs.len() && ts[v as int] == TermV::Terminal(
            TerminalV::Var(IdentifierV::Simple(#[trigger] bs[k].0), bs[k].1),
        )
}

/// Whether the term `v` is the simple variable that one of the bindings `bs` of a `let`
/// at id `i` introduces: same name, and as sort the sort of the bound value.
pub open spec fn let_bound(
    ts: Seq<TermV>,
    ss: Seq<SortV>,
    bs: Seq<(Seq<char>, TermId)>,
    v: TermId,
    i: int,
) -> bool {
    v < ts.len() && exists|k: int|
        0 <= k < bs.len() && bs[k].1 < i && match ts[v as int] {
            TermV::Terminal(TerminalV::Var(IdentifierV::Simple(name), s)) => name == (
            #[trigger] bs[k]).0 && s < v && ts[s as int] == TermV::Sort(ss[bs[k].1 as int]),
            _ => false,
        }
}

/// Whether the term `v` occurs free in the term `i`.
pub open spec fn is_free(ts: Seq<TermV>, ss: Seq<SortV>, v: TermId, i: int) -> bool
    decreases i,
{
    if !(0 <= i < ts.len()) {
        false
    } else {
        match ts[i] {
            TermV::App(f, args) => (f < i && is_free(ts, ss, v, f as int)) || exists|k: int|
                0 <= k < args.len() && args[k] < i && is_free(ts, ss, v, #[trigger] args[k] as int),
            TermV::Op(_, args) => exists|k: int|
                0 <= k < args.len() && args[k] < i && is_free(ts, ss, v, #[trigger] args[k] as int),
            TermV::Quant(_, bs, body) => body < i && is_free(ts, ss, v, body as int) && !bound_by(
                ts,
                bs,
                v,
            ),
            TermV::Lambda(bs, body) => body < i && is_free(ts, ss, v, body as int) && !bound_by(
                ts,
                bs,
                v,
            ),
            TermV::Choice(b, body) => body < i && is_free(ts, ss, v, body as int) && !bound_by(
                ts,
                seq![b],
                v,
            ),
            TermV::Let(bs, body) => body < i && is_free(ts, ss, v, body as int) && !let_bound(
                ts,
                ss,
                bs,
                v,
                i,
            ),
            TermV::Terminal(TerminalV::Var(IdentifierV::Simple(_), _)) => v == i,
            _ => false,
        }
    }
}

/// The free variables of the term `i`.
pub open spec fn free_vars_of(ts: Seq<TermV>, ss: Seq<SortV>, i: int) -> Set<TermId> {
    Set::new(|v: TermId| is_free(ts, ss, v, i))
}

/// A free variable of a term is that term or one of its subterms.
pub proof fn lemma_free_below(ts: Seq<TermV>, ss: Seq<SortV>, v: TermId, i: int)
    requires
        is_free(ts, ss, v, i),
    ensures
        v <= i,
    decreases i,
{
    match ts[i] {
        TermV::App(f, args) => {
            if f < i && is_free(ts, ss, v, f as int) {
                lemma_free_below(ts, ss, v, f as int);
            } else {
                let k = choose|k: int|
                    0 <= k < args.len() && args[k] < i && is_free(ts, ss, v, #[trigger] args[k] as int);
                lemma_free_below(ts, ss, v, args[k] as int);
            }
        },
        TermV::Op(_, args) => {
            let k = choose|k: int|
                0 <= k < args.len() && args[k] < i && is_free(ts, ss, v, #[trigger] args[k] as int);
            lemma_free_below(ts, ss, v, args[k] as int);
        },
        TermV::Quant(_, _, body) => lemma_free_below(ts, ss, v, body as int),
        TermV::Lambda(_, body) => lemma_free_below(ts, ss, v, body as int),
        TermV::Choice(_, body) => lemma_free_below(ts, ss, v, body as int),
        TermV::Let(_, body) => lemma_free_below(ts, ss, v, body as int),
        _ => {},
    }
}

/// Whether a term occurs free does not change when the pool grows.
proof fn lemma_free_extends(
    ts: Seq<TermV>,
    ss: Seq<SortV>,
    ts2: Seq<TermV>,
    ss2: Seq<SortV>,
    v: TermId,
    i: int,
)
    requires
        ts.is_prefix_of(ts2),
        ss.is_prefix_of(ss2),
        ss.len() == ts.len(),
        0 <= i < ts.len(),
    ensures
        is_free(ts2, ss2, v, i) == is_free(ts, ss, v, i),
    decreases i,
{
    assert(ts2[i] == ts[i]);
    match ts[i] {
        TermV::App(f, args) => {
            if f < i {
                lemma_free_extends(ts, ss, ts2, ss2, v, f as int);
            }
            assert forall|k: int| 0 <= k < args.len() && args[k] < i implies is_free(
                ts2,
                ss2,
                v,
                #[trigger] args[k] as int,
            ) == is_free(ts, ss, v, args[k] as int) by {
                lemma_free_extends(ts, ss, ts2, ss2, v, args[k] as int);
            }
        },
        TermV::Op(_, args) => {
            assert forall|k: int| 0 <= k < args.len() && args[k] < i implies is_free(
                ts2,
                ss2,
                v,
                #[trigger] args[k] as int,
            ) == is_free(ts, ss, v, args[k] as int) by {
                lemma_free_extends(ts, ss, ts2, ss2, v, args[k] as int);
            }
        },
        TermV::Quant(_, bs, body) => {
            if body < i {
                lemma_free_extends(ts, ss, ts2, ss2, v, body as int);
                if is_free(ts, ss, v, body as int) {
                    lemma_free_below(ts, ss, v, body as int);
                    assert(ts2[v as int] == ts[v as int]);
                }
            }
        },
        TermV::Lambda(bs, body) => {
            if body < i {
                lemma_free_extends(ts, ss, ts2, ss2, v, body as int);
                if is_free(ts, ss, v, body as int) {
                    lemma_free_below(ts, ss, v, body as int);
                    assert(ts2[v as int] == ts[v as int]);
                }
            }
        },
        TermV::Choice(b, body) => {
            if body < i {
                lemma_free_extends(ts, ss, ts2, ss2, v, body as int);
                if is_free(ts, ss, v, body as int) {
                    lemma_free_below(ts, ss, v, body as int);
                    assert(ts2[v as int] == ts[v as int]);
                }
            }
        },
        TermV::Let(bs, body) => {
            if body < i {
                lemma_free_extends(ts, ss, ts2, ss2, v, body as int);
                if is_free(ts, ss, v, body as int) {
                    lemma_free_below(ts, ss, v, body as int);
                    assert(ts2[v as int] == ts[v as int]);
                    assert forall|k: int| 0 <= k < bs.len() && bs[k].1 < i implies ss2[bs[k].1 as int]
                        == ss[bs[k].1 as int] by {}
                    match ts[v as int] {
                        TermV::Terminal(TerminalV::Var(IdentifierV::Simple(_), s)) => {
                            if s < v {
                                assert(ts2[s as int] == ts[s as int]);
                            }
                        },
                        _ => {},
                    }
                }
            }
        },
        _ => {},
    }
}

/// Whether a cached entry for the term `i` holds its free variables, each once.
pub open spec fn cache_entry_ok(ts: Seq<TermV>, ss: Seq<SortV>, v: Seq<TermId>, i: int) -> bool {
    0 <= i < ts.len() && v.no_duplicates() && forall|x: TermId| v.contains(x) <==> is_free(ts, ss, x, i)
}

/// The term `true` or `false`, of the sort term `bool_sort`.
pub open spec fn bool_term(name: Seq<char>, bool_sort: TermId) -> TermV {
    TermV::Terminal(TerminalV::Var(IdentifierV::Simple(name), bool_sort))
}

/// A store of terms in which every term is kept once. A term's sort is computed when it
/// is added and kept in a table indexed by id; free variables are computed on demand and
/// kept in a map from id.
pub struct TermPool {
    table: TermTable,
    terms: Vec<Term>,
    sorts: Vec<Sort>,
    free_vars_cache: FreeVarsCache,
    bool_sort: TermId,
    bool_true: TermId,
    bool_false: TermId,
}

impl TermPool {
    /// The values of the terms, by id.
    pub closed spec fn terms(&self) -> Seq<TermV> {
        self.terms@.map_values(|t: Term| t@)
    }

    /// The sorts of the terms, by id.
    pub closed spec fn sorts(&self) -> Seq<SortV> {
        self.sorts@.map_values(|s: Sort| s@)
    }

    /// The ids of the sort `Bool` and of the constants `true` and `false`.
    pub closed spec fn bool_ids(&self) -> (TermId, TermId, TermId) {
        (self.bool_sort, self.bool_true, self.bool_false)
    }

    /// The pool's invariant.
    pub closed spec fn wf(&self) -> bool {
        let ts = self.terms();
        &&& self.wf_store()
        &&& self.bool_sort < ts.len() && self.bool_true < ts.len() && self.bool_false < ts.len()
        &&& ts[self.bool_sort as int] == TermV::Sort(SortV::Bool)
        &&& ts[self.bool_true as int] == bool_term(seq!['t', 'r', 'u', 'e'], self.bool_sort)
        &&& ts[self.bool_false as int] == bool_term(seq!['f', 'a', 'l', 's', 'e'], self.bool_sort)
    }

    /// The invariant of the store of terms, sorts and table.
    closed spec fn wf_store(&self) -> bool {
        let ts = self.terms();
        let ss = self.sorts();
        let c = table_contents(self.table);
        &&& ss.len() == ts.len()
        &&& forall|i: int|
            0 <= i < ts.len() ==> {
                &&& refs_below(#[trigger] ts[i], i)
                &&& term_valid(ts, ss, ts[i])
                &&& sort_rule(ts, ss, ts[i], ss[i])
                &&& sort_refs_below(ss[i], i)
            }
        &&& forall|i: int| 0 <= i < ts.len() ==> c.contains_key(#[trigger] ts[i]) && c[ts[i]] == i
        &&& forall|i: TermId| #[trigger]
            cache_contents(self.free_vars_cache).contains_key(i) ==> cache_entry_ok(
                ts,
                ss,
                cache_contents(self.free_vars_cache)[i],
                i as int,
            )
        &&& forall|v: TermV| #[trigger]
            c.contains_key(v) ==> c[v] < ts.len() && ts[c[v] as int] == v
    }

    /// Whether `next` holds every term and sort of `self`, under the same ids.
    pub open spec fn extends(self, next: TermPool) -> bool {
        &&& self.terms().is_prefix_of(next.terms())
        &&& self.sorts().is_prefix_of(next.sorts())
        &&& self.bool_ids() == next.bool_ids()
    }

    /// Two ids of a well-formed pool that hold equal terms are equal.
    pub proof fn lemma_unique(&self, i: TermId, j: TermId)
        requires
            self.wf(),
            i < self.terms().len(),
            j < self.terms().len(),
            self.terms()[i as int] == self.terms()[j as int],
        ensures
            i == j,
    {
        let c = table_contents(self.table);
        assert(self.wf_store());
        assert(c.contains_key(self.terms()[i as int]) && c[self.terms()[i as int]] == i);
        assert(c.contains_key(self.terms()[j as int]) && c[self.terms()[j as int]] == j);
    }

    /// The number of terms in the pool.
    pub fn len(&self) -> (r: usize)
        ensures
            r == self.terms().len(),
    {
        self.terms.len()
    }

    /// The term with id `id`.
    pub fn term(&self, id: TermId) -> (r: &Term)
        requires
            self.wf(),
            id < self.terms().len(),
        ensures
            r@ == self.terms()[id as int],
            refs_below(r@, id as int),
    {
        proof {
            assert(refs_below(self.terms()[id as int], id as int));
        }
        &self.terms[id]
    }

    /// A term of a well-formed pool refers only to terms with smaller ids.
    pub proof fn lemma_refs(&self, i: TermId)
        requires
            self.wf(),
            i < self.terms().len(),
        ensures
            refs_below(self.terms()[i as int], i as int),
    {
    }

    /// A well-formed pool has one sort for each term.
    pub proof fn lemma_wf(&self)
        requires
            self.wf(),
        ensures
            self.sorts().len() == self.terms().len(),
    {
    }

    /// Adds `term` under the next free id, with sort `sort`.
    fn push_new(&mut self, term: Term, sort: Sort) -> (r: TermId)
        requires
            old(self).wf_store(),
            term_valid(old(self).terms(), old(self).sorts(), term@),
            !table_contents(old(self).table).contains_key(term@),
            sort_rule(old(self).terms(), old(self).sorts(), term@, sort@),
            sort_refs_below(sort@, old(self).terms().len() as int),
            old(self).terms().len() < usize::MAX,
        ensures
            final(self).wf_store(),
            final(self).terms() == old(self).terms().push(term@),
            final(self).sorts() == old(self).sorts().push(sort@),
            final(self).bool_ids() == old(self).bool_ids(),
            r == old(self).terms().len(),
    {
        let ghost ts0 = self.terms();
        let ghost ss0 = self.sorts();
        let n = self.terms.len();
        let key = term.duplicate();
        table_insert(&mut self.table, key, n);
        self.terms.push(term);
        self.sorts.push(sort);
        let ghost ts = self.terms();
        let ghost ss = self.sorts();
        assert(ts =~= ts0.push(term@));
        assert(ss =~= ss0.push(sort@));
        let ghost cc = cache_contents(self.free_vars_cache);
        assert forall|i: TermId| #[trigger] cc.contains_key(i) implies cache_entry_ok(
            ts,
            ss,
            cc[i],
            i as int,
        ) by {
            assert(cache_entry_ok(ts0, ss0, cc[i], i as int));
            assert forall|x: TermId| is_free(ts, ss, x, i as int) == is_free(ts0, ss0, x, i as int) by {
                lemma_free_extends(ts0, ss0, ts, ss, x, i as int);
            }
        }
        assert forall|i: int| 0 <= i < ts.len() implies {
            &&& refs_below(#[trigger] ts[i], i)
            &&& term_valid(ts, ss, ts[i])
            &&& sort_rule(ts, ss, ts[i], ss[i])
            &&& sort_refs_below(ss[i], i)
        } by {
            if i < n {
                assert(ts[i] == ts0[i]);
                assert(refs_below(ts0[i], i));
                assert(term_valid(ts0, ss0, ts0[i]));
                assert(sort_rule(ts0, ss0, ts0[i], ss0[i]));
            }
        }
        n
    }

    /// Adds `term` unless an equal term is there; returns its id.
    fn add_term_to_map(&mut self, term: Term, sort: Sort) -> (r: TermId)
        requires
            old(self).wf_store(),
            term_valid(old(self).terms(), old(self).sorts(), term@),
            sort_rule(old(self).terms(), old(self).sorts(), term@, sort@),
            sort_refs_below(sort@, old(self).terms().len() as int),
            old(self).terms().len() < usize::MAX,
        ensures
            final(self).wf_store(),
            final(self).bool_ids() == old(self).bool_ids(),
            old(self).terms().contains(term@) ==> final(self).terms() == old(self).terms()
                && final(self).sorts() == old(self).sorts(),
            !old(self).terms().contains(term@) ==> final(self).terms() == old(self).terms().push(
                term@,
            ) && final(self).sorts() == old(self).sorts().push(sort@),
            r < final(self).terms().len(),
            final(self).terms()[r as int] == term@,
    {
        match table_get(&self.table, &term) {
            Some(i) => {
                proof {
                    assert(self.terms()[i as int] == term@);
                }
                i
            },
            None => {
                proof {
                    if self.terms().contains(term@) {
                        let i = choose|i: int| 0 <= i < self.terms().len() && self.terms()[i] == term@;
                        assert(table_contents(self.table).contains_key(self.terms()[i]));
                    }
                }
                self.push_new(term, sort)
            },
        }
    }

    /// The sort that the sort term `i` denotes.
    fn denoted(&self, i: TermId) -> (r: Sort)
        requires
            self.wf_store(),
            is_sort_term(self.terms(), i as int),
        ensures
            r@ == sort_denoted(self.terms(), i as int),
            sort_refs_below(r@, i as int),
    {
        proof {
            assert(refs_below(self.terms()[i as int], i as int));
        }
        match &self.terms[i] {
            Term::Sort(s) => s.duplicate(),
            _ => {
                proof {
                    assert(false);
                }
                Sort::Bool
            },
        }
    }

    /// The sort of the term `i`.
    fn sort_at(&self, i: TermId) -> (r: Sort)
        requires
            self.wf_store(),
            i < self.terms().len(),
        ensures
            r@ == self.sorts()[i as int],
            sort_refs_below(r@, i as int),
    {
        proof {
            assert(refs_below(self.terms()[i as int], i as int));
        }
        self.sorts[i].duplicate()
    }

    /// Whether one of `args` has the sort `Real`.
    fn any_real_arg(&self, args: &Vec<TermId>) -> (r: bool)
        requires
            self.wf_store(),
            forall|j: int| 0 <= j < args.len() ==> args@[j] < self.terms().len(),
        ensures
            r == exists|j: int| 0 <= j < args.len() && self.sorts()[args@[j] as int] == SortV::Real,
    {
        let mut k: usize = 0;
        while k < args.len()
            invariant
                self.wf_store(),
                forall|j: int| 0 <= j < args.len() ==> args@[j] < self.terms().len(),
                k <= args.len(),
                forall|j: int| 0 <= j < k ==> self.sorts()[args@[j] as int] != SortV::Real,
            decreases args.len() - k,
        {
            if let Sort::Real = &self.sorts[args[k]] {
                return true;
            }
            k += 1;
        }
        false
    }

    /// The sort of a term that is not a lambda, from the sorts of its subterms.
    fn infer_sort(&self, term: &Term) -> (r: Sort)
        requires
            self.wf_store(),
            term_valid(self.terms(), self.sorts(), term@),
            !(term@ is Lambda),
        ensures
            sort_rule(self.terms(), self.sorts(), term@, r@),
            sort_refs_below(r@, self.terms().len() as int),
    {
        match term {
            Term::Terminal(Terminal::Integer(_)) => Sort::Int,
            Term::Terminal(Terminal::Real(_)) => Sort::Real,
            Term::Terminal(Terminal::String(_)) => Sort::String,
            Term::Terminal(Terminal::Var(_, s)) => self.denoted(*s),
            Term::Op(op, args) => match op {
                Operator::Ite => self.sort_at(args[1]),
                Operator::Add | Operator::Sub | Operator::Mult => {
                    if self.any_real_arg(args) {
                        Sort::Real
                    } else {
                        Sort::Int
                    }
                },
                Operator::RealDiv | Operator::ToReal => Sort::Real,
                Operator::IntDiv | Operator::Mod | Operator::Abs | Operator::ToInt => Sort::Int,
                Operator::Select => match &self.sorts[args[0]] {
                    Sort::Array(_, y) => self.denoted(*y),
                    _ => {
                        proof {
                            assert(false);
                        }
                        Sort::Bool
                    },
                },
                Operator::Store => self.sort_at(args[0]),
                _ => Sort::Bool,
            },
            Term::App(f, _) => {
                proof {
                    assert(refs_below(self.terms()[*f as int], *f as int));
                }
                match &self.sorts[*f] {
                    Sort::Function(v) => self.denoted(v[v.len() - 1]),
                    _ => {
                        proof {
                            assert(false);
                        }
                        Sort::Bool
                    },
                }
            },
            Term::Sort(s) => s.duplicate(),
            Term::Quant(_, _, _) => Sort::Bool,
            Term::Choice(b, _) => self.denoted(b.term),
            Term::Let(_, body) => self.sort_at(*body),
            Term::Lambda(_, _) => {
                proof {
                    assert(false);
                }
                Sort::Bool
            },
        }
    }

    /// The sort of a lambda: its parameters' sorts followed by the sort of its body, as a
    /// sort term that this adds.
    fn lambda_sort(&mut self, bs: &Vec<Binding>, body: TermId) -> (r: Sort)
        requires
            old(self).wf_store(),
            term_valid(old(self).terms(), old(self).sorts(), TermV::Lambda(crate::ast::bindings_view(bs@), body)),
            old(self).terms().len() < usize::MAX,
        ensures
            final(self).wf_store(),
            final(self).bool_ids() == old(self).bool_ids(),
            old(self).terms().is_prefix_of(final(self).terms()),
            old(self).sorts().is_prefix_of(final(self).sorts()),
            final(self).terms() == old(self).terms() || final(self).terms() == old(self).terms().push(
                TermV::Sort(old(self).sorts()[body as int]),
            ),
            sort_rule(final(self).terms(), final(self).sorts(), TermV::Lambda(crate::ast::bindings_view(bs@), body), r@),
            sort_refs_below(r@, final(self).terms().len() as int),
    {
        let ghost bsv = crate::ast::bindings_view(bs@);
        let mut v: Vec<TermId> = Vec::new();
        let mut k: usize = 0;
        while k < bs.len()
            invariant
                k <= bs.len(),
                v.len() == k,
                forall|j: int| 0 <= j < k ==> v@[j] == bs@[j].term,
                self == old(self),
            decreases bs.len() - k,
        {
            v.push(bs[k].term);
            k += 1;
        }
        let ghost ts0 = self.terms();
        proof {
            assert(ts0 == old(self).terms());
            assert(refs_below(TermV::Lambda(bsv, body), ts0.len() as int));
            assert(bsv.len() == bs@.len());
            assert forall|k: int| 0 <= k < bsv.len() implies #[trigger] bsv[k].1 < ts0.len() by {
                let t = TermV::Lambda(bsv, body);
                assert(refs_below(t, ts0.len() as int));
                assert(t->Lambda_0 == bsv);
                assert(t->Lambda_0[k].1 < ts0.len());
            }
        }
        let body_sort = self.sort_at(body);
        let body_sort_copy = body_sort.duplicate();
        let id = self.add_term_to_map(Term::Sort(body_sort), body_sort_copy);
        proof {
            if !ts0.contains(TermV::Sort(body_sort_copy@)) {
                assert(self.terms() == ts0.push(TermV::Sort(body_sort_copy@)));
            }
            assert(ts0.is_prefix_of(self.terms()));
        }
        v.push(id);
        let r = Sort::Function(v);
        proof {
            assert forall|j: int| 0 <= j < bs.len() implies r@->Function_0[j] == bsv[j].1 by {
                assert(r@->Function_0[j] == v@[j]);
            }
            assert forall|j: int| 0 <= j < r@->Function_0.len() implies r@->Function_0[j] < self.terms().len() by {
                if j < bs.len() {
                    assert(r@->Function_0[j] == bsv[j].1);
                    assert(bsv[j].1 < ts0.len());
                } else {
                    assert(r@->Function_0[j] == id);
                }
            }
        }
        r
    }

    /// Computes the sort of `term`, which is about to be added. For a lambda this adds the
    /// sort term of its body's sort.
    fn compute_sort(&mut self, term: &Term) -> (r: Sort)
        requires
            old(self).wf_store(),
            term_valid(old(self).terms(), old(self).sorts(), term@),
            old(self).terms().len() < usize::MAX,
        ensures
            final(self).wf_store(),
            final(self).bool_ids() == old(self).bool_ids(),
            old(self).terms().is_prefix_of(final(self).terms()),
            old(self).sorts().is_prefix_of(final(self).sorts()),
            final(self).terms() == old(self).terms() || (term@ is Lambda && final(self).terms()
                == old(self).terms().push(TermV::Sort(old(self).sorts()[term@->Lambda_1 as int]))),
            sort_rule(final(self).terms(), final(self).sorts(), term@, r@),
            sort_refs_below(r@, final(self).terms().len() as int),
    {
        match term {
            Term::Lambda(bs, body) => self.lambda_sort(bs, *body),
            _ => {
                proof {
                    assert(self.terms().is_prefix_of(self.terms()));
                    assert(self.sorts().is_prefix_of(self.sorts()));
                }
                self.infer_sort(term)
            },
        }
    }

    /// A new pool, holding the sort `Bool` and the constants `true` and `false`.
    pub fn new() -> (r: TermPool)
        ensures
            r.wf(),
            r.terms().len() == 3,
    {
        let mut pool = TermPool {
            table: table_new(),
            terms: Vec::new(),
            sorts: Vec::new(),
            free_vars_cache: cache_new(),
            bool_sort: 0,
            bool_true: 0,
            bool_false: 0,
        };
        proof {
            assert(pool.terms() =~= Seq::<TermV>::empty());
            assert(pool.sorts() =~= Seq::<SortV>::empty());
        }
        let bool_sort = pool.push_new(Term::Sort(Sort::Bool), Sort::Bool);
        let t = Term::Terminal(Terminal::Var(Identifier::Simple("true".to_owned()), bool_sort));
        proof {
            assert(!pool.terms().contains(t@));
        }
        let bool_true = pool.push_new(t, Sort::Bool);
        let f = Term::Terminal(Terminal::Var(Identifier::Simple("false".to_owned()), bool_sort));
        proof {
            reveal_strlit("true");
            reveal_strlit("false");
            assert("true"@.len() != "false"@.len());
            assert(pool.terms()[1] != f@);
            assert(!pool.terms().contains(f@));
        }
        let bool_false = pool.push_new(f, Sort::Bool);
        pool.bool_sort = bool_sort;
        pool.bool_true = bool_true;
        pool.bool_false = bool_false;
        proof {
            assert(seq!['t', 'r', 'u', 'e'] =~= "true"@);
            assert(seq!['f', 'a', 'l', 's', 'e'] =~= "false"@);
        }
        pool
    }

    /// The term `true`.
    pub fn bool_true(&self) -> (r: TermId)
        requires
            self.wf(),
        ensures
            r == self.bool_ids().1,
            r < self.terms().len(),
            self.terms()[r as int] == bool_term(seq!['t', 'r', 'u', 'e'], self.bool_ids().0),
            self.terms()[self.bool_ids().0 as int] == TermV::Sort(SortV::Bool),
    {
        self.bool_true
    }

    /// The term `false`.
    pub fn bool_false(&self) -> (r: TermId)
        requires
            self.wf(),
        ensures
            r == self.bool_ids().2,
            r < self.terms().len(),
            self.terms()[r as int] == bool_term(seq!['f', 'a', 'l', 's', 'e'], self.bool_ids().0),
            self.terms()[self.bool_ids().0 as int] == TermV::Sort(SortV::Bool),
    {
        self.bool_false
    }

    /// The term `true` or `false`, as `value` says.
    pub fn bool_constant(&self, value: bool) -> (r: TermId)
        requires
            self.wf(),
        ensures
            r == if value {
                self.bool_ids().1
            } else {
                self.bool_ids().2
            },
    {
        if value {
            self.bool_true()
        } else {
            self.bool_false()
        }
    }

    /// Adds `term` to the pool, unless an equal term is there already, and returns its
    /// id. The term's sort is computed and kept.
    pub fn add(&mut self, term: Term) -> (r: TermId)
        requires
            old(self).wf(),
            term_valid(old(self).terms(), old(self).sorts(), term@),
            old(self).terms().len() + 2 <= usize::MAX,
        ensures
            final(self).wf(),
            old(self).extends(*final(self)),
            final(self).terms().len() <= old(self).terms().len() + 2,
            old(self).terms().contains(term@) ==> final(self).terms() == old(self).terms(),
            !old(self).terms().contains(term@) ==> final(self).terms() == old(self).terms().push(term@)
                || (term@ is Lambda && final(self).terms() == old(self).terms().push(
                TermV::Sort(old(self).sorts()[term@->Lambda_1 as int]),
            ).push(term@)),
            r < final(self).terms().len(),
            final(self).terms()[r as int] == term@,
            sort_rule(final(self).terms(), final(self).sorts(), term@, final(self).sorts()[r as int]),
    {
        let ghost ts0 = self.terms();
        let ghost ss0 = self.sorts();
        match table_get(&self.table, &term) {
            Some(i) => {
                proof {
                    assert(self.terms()[i as int] == term@);
                    assert(sort_rule(ts0, ss0, ts0[i as int], ss0[i as int]));
                }
                i
            },
            None => {
                proof {
                    if ts0.contains(term@) {
                        let i = choose|i: int| 0 <= i < ts0.len() && ts0[i] == term@;
                        assert(table_contents(self.table).contains_key(ts0[i]));
                    }
                }
                let sort = self.compute_sort(&term);
                let ghost ts1 = self.terms();
                let ghost ss1 = self.sorts();
                proof {
                    lemma_valid_extends(ts0, ss0, ts1, ss1, term@);
                    assert(!ts1.contains(term@)) by {
                        if ts1.contains(term@) {
                            let i = choose|i: int| 0 <= i < ts1.len() && ts1[i] == term@;
                            if i < ts0.len() {
                                assert(ts0[i] == ts1[i]);
                            }
                        }
                    }
                }
                let sort_copy = sort.duplicate();
                let r = self.add_term_to_map(term, sort);
                proof {
                    assert(self.terms() == ts1.push(term@));
                    lemma_sort_rule_extends(ts1, ss1, self.terms(), self.sorts(), term@, sort_copy@);
                    assert(ts0.is_prefix_of(self.terms()));
                    assert(ss0.is_prefix_of(self.sorts()));
                }
                r
            },
        }
    }

    /// Adds each term in turn, as [`TermPool::add`] does, and returns their ids.
    pub fn add_all(&mut self, terms: Vec<Term>) -> (r: Vec<TermId>)
        requires
            old(self).wf(),
            forall|i: int|
                0 <= i < terms.len() ==> term_valid(old(self).terms(), old(self).sorts(), #[trigger] terms@[i]@),
            old(self).terms().len() + 2 * terms.len() <= usize::MAX,
        ensures
            final(self).wf(),
            old(self).extends(*final(self)),
            r.len() == terms.len(),
            forall|i: int|
                0 <= i < r.len() ==> #[trigger] r@[i] < final(self).terms().len() && final(self).terms()[r@[i] as int]
                    == terms@[i]@,
    {
        let ghost p0 = *self;
        let mut r: Vec<TermId> = Vec::new();
        let mut k: usize = 0;
        while k < terms.len()
            invariant
                self.wf(),
                p0.wf(),
                p0.extends(*self),
                k <= terms.len(),
                r.len() == k,
                self.terms().len() <= p0.terms().len() + 2 * k,
                p0.terms().len() + 2 * terms.len() <= usize::MAX,
                forall|i: int|
                    0 <= i < terms.len() ==> term_valid(p0.terms(), p0.sorts(), #[trigger] terms@[i]@),
                forall|i: int|
                    0 <= i < k ==> #[trigger] r@[i] < self.terms().len() && self.terms()[r@[i] as int]
                        == terms@[i]@,
            decreases terms.len() - k,
        {
            let ghost p1 = *self;
            proof {
                p0.lemma_wf();
                lemma_valid_extends(p0.terms(), p0.sorts(), p1.terms(), p1.sorts(), terms@[k as int]@);
            }
            let t = terms[k].duplicate();
            let id = self.add(t);
            proof {
                assert forall|i: int| 0 <= i < k implies #[trigger] r@[i] < self.terms().len()
                    && self.terms()[r@[i] as int] == terms@[i]@ by {
                    assert(p1.terms()[r@[i] as int] == self.terms()[r@[i] as int]);
                }
            }
            r.push(id);
            k += 1;
        }
        r
    }

    /// Whether the term `v` is a simple variable introduced by one of `bs` (for a `let`
    /// at id `i` when `is_let`).
    fn is_bound_var(&self, v: TermId, bs: &Vec<Binding>, is_let: bool, i: TermId) -> (r: bool)
        requires
            self.wf(),
            v < self.terms().len(),
            i <= self.terms().len(),
        ensures
            !is_let ==> r == bound_by(self.terms(), crate::ast::bindings_view(bs@), v),
            is_let ==> r == let_bound(
                self.terms(),
                self.sorts(),
                crate::ast::bindings_view(bs@),
                v,
                i as int,
            ),
    {
        let ghost bsv = crate::ast::bindings_view(bs@);
        proof {
            self.lemma_refs(v);
        }
        match &self.terms[v] {
            Term::Terminal(Terminal::Var(Identifier::Simple(name), s)) => {
                let mut k: usize = 0;
                while k < bs.len()
                    invariant
                        k <= bs.len(),
                        self.wf(),
                        v < self.terms().len(),
                        bsv == crate::ast::bindings_view(bs@),
                        self.terms()[v as int] == TermV::Terminal(
                            TerminalV::Var(IdentifierV::Simple(name@), *s),
                        ),
                        *s < v,
                        i <= self.terms().len(),
                        forall|j: int|
                            0 <= j < k ==> !is_let ==> self.terms()[v as int] != TermV::Terminal(
                                TerminalV::Var(IdentifierV::Simple(#[trigger] bsv[j].0), bsv[j].1),
                            ),
                        forall|j: int|
                            0 <= j < k ==> is_let ==> !(bsv[j].1 < i && name@ == (#[trigger] bsv[j]).0
                                && self.terms()[*s as int] == TermV::Sort(
                                self.sorts()[bsv[j].1 as int],
                            )),
                    decreases bs.len() - k,
                {
                    proof {
                        assert(bsv[k as int] == (bs@[k as int].name@, bs@[k as int].term));
                        self.lemma_wf();
                    }
                    if bs[k].name == *name {
                        if !is_let {
                            if bs[k].term == *s {
                                proof {
                                    assert(self.terms()[v as int] == TermV::Terminal(
                                        TerminalV::Var(IdentifierV::Simple(bsv[k as int].0), bsv[k as int].1),
                                    ));
                                }
                                return true;
                            }
                        } else if bs[k].term < i {
                            if let Term::Sort(x) = &self.terms[*s] {
                                if sort_eq(x, &self.sorts[bs[k].term]) {
                                    proof {
                                        assert(self.terms()[*s as int] == self.terms@[*s as int]@);
                                        assert(self.sorts()[bsv[k as int].1 as int] == self.sorts@[bs@[k as int].term as int]@);
                                        assert(bsv[k as int].1 < i && name@ == bsv[k as int].0
                                            && self.terms()[*s as int] == TermV::Sort(
                                            self.sorts()[bsv[k as int].1 as int],
                                        ));
                                    }
                                    return true;
                                }
                                proof {
                                    assert(self.terms()[*s as int] == self.terms@[*s as int]@);
                                    assert(self.sorts()[bsv[k as int].1 as int] == self.sorts@[bs@[k as int].term as int]@);
                                }
                            } else {
                                proof {
                                    assert(self.terms()[*s as int] == self.terms@[*s as int]@);
                                }
                            }
                        }
                    }
                    k += 1;
                }
                false
            },
            _ => false,
        }
    }

    /// The members of `set` that no binding of `bs` introduces.
    fn remove_bound(&self, set: Vec<TermId>, bs: &Vec<Binding>, is_let: bool, i: TermId) -> (r: Vec<TermId>)
        requires
            self.wf(),
            set@.no_duplicates(),
            forall|x: TermId| set@.contains(x) ==> x < self.terms().len(),
            i <= self.terms().len(),
        ensures
            r@.no_duplicates(),
            forall|x: TermId|
                r@.contains(x) <==> set@.contains(x) && !(if is_let {
                    let_bound(self.terms(), self.sorts(), crate::ast::bindings_view(bs@), x, i as int)
                } else {
                    bound_by(self.terms(), crate::ast::bindings_view(bs@), x)
                }),
    {
        let mut r: Vec<TermId> = Vec::new();
        let mut k: usize = 0;
        while k < set.len()
            invariant
                k <= set.len(),
                self.wf(),
                i <= self.terms().len(),
                set@.no_duplicates(),
                forall|x: TermId| set@.contains(x) ==> x < self.terms().len(),
                r@.no_duplicates(),
                forall|x: TermId| r@.contains(x) ==> exists|j: int| 0 <= j < k && set@[j] == x,
                forall|x: TermId|
                    r@.contains(x) <==> (exists|j: int| 0 <= j < k && set@[j] == x) && !(if is_let {
                        let_bound(self.terms(), self.sorts(), crate::ast::bindings_view(bs@), x, i as int)
                    } else {
                        bound_by(self.terms(), crate::ast::bindings_view(bs@), x)
                    }),
            decreases set.len() - k,
        {
            let x = set[k];
            proof {
                assert(set@.contains(x));
            }
            let ghost before = r@;
            if !self.is_bound_var(x, bs, is_let, i) {
                proof {
                    assert(!r@.contains(x)) by {
                        if r@.contains(x) {
                            let j = choose|j: int| 0 <= j < k && set@[j] == x;
                            assert(set@[j] == set@[k as int]);
                        }
                    }
                }
                r.push(x);
            }
            proof {
                assert forall|y: TermId| r@.contains(y) implies exists|j: int| 0 <= j < k + 1 && set@[j] == y by {
                    lemma_push_contains(before, x, y);
                    if y == x {
                        assert(set@[k as int] == y);
                    } else {
                        let j = choose|j: int| 0 <= j < k && set@[j] == y;
                        assert(0 <= j < k + 1 && set@[j] == y);
                    }
                }
                assert forall|y: TermId| r@.contains(y) <==> (exists|j: int| 0 <= j < k + 1 && set@[j] == y)
                    && !(if is_let {
                        let_bound(self.terms(), self.sorts(), crate::ast::bindings_view(bs@), y, i as int)
                    } else {
                        bound_by(self.terms(), crate::ast::bindings_view(bs@), y)
                    }) by {
                    lemma_push_contains(before, x, y);
                    if y == x {
                        assert(set@[k as int] == y);
                    }
                    if exists|j: int| 0 <= j < k + 1 && set@[j] == y {
                        let j = choose|j: int| 0 <= j < k + 1 && set@[j] == y;
                        if j < k {
                            assert(exists|j: int| 0 <= j < k && set@[j] == y);
                        } else {
                            assert(y == x);
                        }
                    }
                }
            }
            k += 1;
        }
        proof {
            assert forall|x: TermId| (exists|j: int| 0 <= j < set.len() && set@[j] == x) <==> set@.contains(x) by {
                if set@.contains(x) {
                    let j = choose|j: int| 0 <= j < set.len() && set@[j] == x;
                }
            }
        }
        r
    }

    /// The free variables of the term `term`, each once. They are computed on the first
    /// call and kept.
    pub fn free_vars(&mut self, term: TermId) -> (r: Vec<TermId>)
        requires
            old(self).wf(),
            term < old(self).terms().len(),
        ensures
            final(self).wf(),
            final(self).terms() == old(self).terms(),
            final(self).sorts() == old(self).sorts(),
            final(self).bool_ids() == old(self).bool_ids(),
            r@.no_duplicates(),
            r@.to_set() == free_vars_of(final(self).terms(), final(self).sorts(), term as int),
            forall|x: TermId| r@.contains(x) <==> is_free(final(self).terms(), final(self).sorts(), x, term as int),
        decreases term,
    {
        let ghost ts = self.terms();
        let ghost ss = self.sorts();
        if let Some(r) = cache_get(&self.free_vars_cache, term) {
            proof {
                assert(cache_entry_ok(ts, ss, cache_contents(self.free_vars_cache)[term], term as int));
                assert(r@.to_set() =~= free_vars_of(ts, ss, term as int));
            }
            return r;
        }
        proof {
            self.lemma_refs(term);
        }
        let t = self.terms[term].duplicate();
        let set: Vec<TermId> = match &t {
            Term::App(f, args) => {
                proof {
                    assert(refs_below(TermV::App(*f, args@), term as int));
                }
                let mut set = self.free_vars(*f);
                let mut k: usize = 0;
                while k < args.len()
                    invariant
                        self.wf(),
                        self.terms() == ts,
                        self.sorts() == ss,
                        self.bool_ids() == old(self).bool_ids(),
                        ts[term as int] == TermV::App(*f, args@),
                        forall|j: int| 0 <= j < args.len() ==> args@[j] < term,
                        term < ts.len(),
                        k <= args.len(),
                        set@.no_duplicates(),
                        forall|x: TermId| set@.contains(x) <==> is_free(ts, ss, x, *f as int) || exists|j: int|
                            0 <= j < k && is_free(ts, ss, x, #[trigger] args@[j] as int),
                    decreases args.len() - k,
                {
                    let s = self.free_vars(args[k]);
                    union_into(&mut set, &s);
                    proof {
                        assert forall|x: TermId| set@.contains(x) <==> is_free(ts, ss, x, *f as int) || exists|j: int|
                            0 <= j < k + 1 && is_free(ts, ss, x, #[trigger] args@[j] as int) by {
                            if s@.contains(x) {
                                assert(is_free(ts, ss, x, args@[k as int] as int));
                            }
                            if exists|j: int| 0 <= j < k + 1 && is_free(ts, ss, x, #[trigger] args@[j] as int) {
                                let j = choose|j: int| 0 <= j < k + 1 && is_free(ts, ss, x, #[trigger] args@[j] as int);
                                if j == k {
                                    assert(s@.contains(x));
                                }
                            }
                        }
                    }
                    k += 1;
                }
                set
            },
            Term::Op(op, args) => {
                proof {
                    assert(refs_below(TermV::Op(*op, args@), term as int));
                }
                let mut set: Vec<TermId> = Vec::new();
                let mut k: usize = 0;
                while k < args.len()
                    invariant
                        self.wf(),
                        self.terms() == ts,
                        self.sorts() == ss,
                        self.bool_ids() == old(self).bool_ids(),
                        forall|j: int| 0 <= j < args.len() ==> args@[j] < term,
                        term < ts.len(),
                        k <= args.len(),
                        set@.no_duplicates(),
                        forall|x: TermId| set@.contains(x) <==> exists|j: int|
                            0 <= j < k && is_free(ts, ss, x, #[trigger] args@[j] as int),
                    decreases args.len() - k,
                {
                    let s = self.free_vars(args[k]);
                    union_into(&mut set, &s);
                    proof {
                        assert forall|x: TermId| set@.contains(x) <==> exists|j: int|
                            0 <= j < k + 1 && is_free(ts, ss, x, #[trigger] args@[j] as int) by {
                            if s@.contains(x) {
                                assert(is_free(ts, ss, x, args@[k as int] as int));
                            }
                            if exists|j: int| 0 <= j < k + 1 && is_free(ts, ss, x, #[trigger] args@[j] as int) {
                                let j = choose|j: int| 0 <= j < k + 1 && is_free(ts, ss, x, #[trigger] args@[j] as int);
                                if j == k {
                                    assert(s@.contains(x));
                                }
                            }
                        }
                    }
                    k += 1;
                }
                set
            },
            Term::Quant(_, bs, body) | Term::Lambda(bs, body) => {
                let inner = self.free_vars(*body);
                proof {
                    assert forall|x: TermId| inner@.contains(x) implies x < ts.len() by {
                        lemma_free_below(ts, ss, x, *body as int);
                    }
                }
                self.remove_bound(inner, bs, false, term)
            },
            Term::Let(bs, body) => {
                let inner = self.free_vars(*body);
                proof {
                    assert forall|x: TermId| inner@.contains(x) implies x < ts.len() by {
                        lemma_free_below(ts, ss, x, *body as int);
                    }
                }
                self.remove_bound(inner, bs, true, term)
            },
            Term::Choice(b, body) => {
                let inner = self.free_vars(*body);
                proof {
                    assert forall|x: TermId| inner@.contains(x) implies x < ts.len() by {
                        lemma_free_below(ts, ss, x, *body as int);
                    }
                }
                let bs = vec![b.duplicate()];
                proof {
                    assert(crate::ast::bindings_view(bs@) =~= seq![crate::ast::binding_view(*b)]);
                }
                self.remove_bound(inner, &bs, false, term)
            },
            Term::Terminal(Terminal::Var(Identifier::Simple(_), _)) => {
                let r = vec![term];
                proof {
                    assert(r@ =~= seq![term]);
                    assert forall|x: TermId| r@.contains(x) <==> x == term by {
                        if x == term {
                            assert(r@[0] == x);
                        }
                    }
                }
                r
            },
            _ => Vec::new(),
        };
        let kept = crate::ast::duplicate_ids(&set);
        proof {
            assert(forall|x: TermId| set@.contains(x) <==> is_free(ts, ss, x, term as int));
            assert(cache_entry_ok(ts, ss, kept@, term as int));
        }
        let ghost cc0 = cache_contents(self.free_vars_cache);
        cache_insert(&mut self.free_vars_cache, term, kept);
        proof {
            let cc = cache_contents(self.free_vars_cache);
            assert forall|i: TermId| #[trigger] cc.contains_key(i) implies cache_entry_ok(
                ts,
                ss,
                cc[i],
                i as int,
            ) by {
                if i != term {
                    assert(cc0.contains_key(i));
                }
            }
        }
        proof {
            assert(set@.to_set() =~= free_vars_of(ts, ss, term as int));
        }
        set
    }

    /// The sort of the term `term`.
    pub fn sort(&self, term: TermId) -> (r: &Sort)
        requires
            self.wf(),
            term < self.terms().len(),
        ensures
            r@ == self.sorts()[term as int],
            sort_rule(self.terms(), self.sorts(), self.terms()[term as int], r@),
    {
        &self.sorts[term]
    }
}

/// What a sequence holds after a push.
proof fn lemma_push_contains(s: Seq<TermId>, x: TermId, y: TermId)
    ensures
        s.push(x).contains(y) <==> (s.contains(y) || y == x),
{
    if s.push(x).contains(y) {
        let idx = choose|idx: int| 0 <= idx < s.push(x).len() && s.push(x)[idx] == y;
        if idx < s.len() {
            assert(s[idx] == y);
        }
    }
    if s.contains(y) {
        let idx = choose|idx: int| 0 <= idx < s.len() && s[idx] == y;
        assert(s.push(x)[idx] == y);
    }
    if y == x {
        assert(s.push(x)[s.len() as int] == y);
    }
}

/// Whether `x` is in `v`.
fn vec_contains(v: &Vec<TermId>, x: TermId) -> (r: bool)
    ensures
        r == v@.contains(x),
{
    let mut k: usize = 0;
    while k < v.len()
        invariant
            k <= v.len(),
            forall|j: int| 0 <= j < k ==> v@[j] != x,
        decreases v.len() - k,
    {
        if v[k] == x {
            return true;
        }
        k += 1;
    }
    false
}

/// Adds to `set` the members of `other` that it lacks.
fn union_into(set: &mut Vec<TermId>, other: &Vec<TermId>)
    requires
        old(set)@.no_duplicates(),
    ensures
        final(set)@.no_duplicates(),
        forall|x: TermId| final(set)@.contains(x) <==> (old(set)@.contains(x) || other@.contains(x)),
{
    let mut k: usize = 0;
    while k < other.len()
        invariant
            k <= other.len(),
            set@.no_duplicates(),
            forall|x: TermId|
                set@.contains(x) <==> (old(set)@.contains(x) || exists|j: int|
                    0 <= j < k && other@[j] == x),
        decreases other.len() - k,
    {
        let x = other[k];
        let ghost before = set@;
        if !vec_contains(set, x) {
            set.push(x);
        }
        proof {
            assert forall|y: TermId| set@.contains(y) <==> (old(set)@.contains(y) || exists|j: int|
                0 <= j < k + 1 && other@[j] == y) by {
                lemma_push_contains(before, x, y);
                if y == x {
                    assert(other@[k as int] == y);
                }
                if exists|j: int| 0 <= j < k + 1 && other@[j] == y {
                    let j = choose|j: int| 0 <= j < k + 1 && other@[j] == y;
                    if j < k {
                        assert(exists|j: int| 0 <= j < k && other@[j] == y);
                    }
                }
            }
        }
        k += 1;
    }
    proof {
        assert forall|x: TermId| other@.contains(x) <==> exists|j: int| 0 <= j < other.len() && other@[j] == x by {
            if other@.contains(x) {
                let j = choose|j: int| 0 <= j < other.len() && other@[j] == x;
            }
        }
    }
}

/// Whether two sorts are equal.
fn sort_eq(a: &Sort, b: &Sort) -> (r: bool)
    ensures
        r == (a@ == b@),
{
    match (a, b) {
        (Sort::Bool, Sort::Bool) => true,
        (Sort::Int, Sort::Int) => true,
        (Sort::Real, Sort::Real) => true,
        (Sort::String, Sort::String) => true,
        (Sort::Atom(x), Sort::Atom(y)) => *x == *y,
        (Sort::Array(k1, v1), Sort::Array(k2, v2)) => *k1 == *k2 && *v1 == *v2,
        (Sort::Function(x), Sort::Function(y)) => {
            if x.len() != y.len() {
                return false;
            }
            let mut k: usize = 0;
            while k < x.len()
                invariant
                    k <= x.len(),
                    x.len() == y.len(),
                    a@ == SortV::Function(x@),
                    b@ == SortV::Function(y@),
                    forall|j: int| 0 <= j < k ==> x@[j] == y@[j],
                decreases x.len() - k,
            {
                if x[k] != y[k] {
                    proof {
                        assert(x@[k as int] != y@[k as int]);
                    }
                    return false;
                }
                k += 1;
            }
            proof {
                assert(x@ =~= y@);
            }
            true
        },
        _ => false,
    }
}

impl Default for TermPool {
    fn default() -> (r: TermPool)
        ensures
            r.wf(),
            r.terms().len() == 3,
    {
        TermPool::new()
    }
}

impl Term {
    /// The sort of this term, whose subterms are in `pool`. Nothing is added to the pool,
    /// so the sort of a lambda is known only when the sort term of its body's sort is
    /// there already; otherwise the result is `None`.
    pub fn sort(&self, pool: &TermPool) -> (r: Option<Sort>)
        requires
            pool.wf(),
            term_valid(pool.terms(), pool.sorts(), self@),
        ensures
            r matches Some(s) ==> sort_rule(pool.terms(), pool.sorts(), self@, s@),
            r is None ==> self@ is Lambda && !pool.terms().contains(
                TermV::Sort(pool.sorts()[self@->Lambda_1 as int]),
            ),
    {
        match self {
            Term::Lambda(bs, body) => {
                let ghost bsv = crate::ast::bindings_view(bs@);
                let body_sort = pool.sort_at(*body);
                let key = Term::Sort(body_sort);
                match table_get(&pool.table, &key) {
                    Some(k) => {
                        let mut v: Vec<TermId> = Vec::new();
                        let mut j: usize = 0;
                        while j < bs.len()
                            invariant
                                j <= bs.len(),
                                v.len() == j,
                                forall|i: int| 0 <= i < j ==> v@[i] == bs@[i].term,
                            decreases bs.len() - j,
                        {
                            v.push(bs[j].term);
                            j += 1;
                        }
                        v.push(k);
                        let r = Sort::Function(v);
                        proof {
                            assert(pool.terms()[k as int] == key@);
                            assert(bsv.len() == bs@.len());
                            assert forall|i: int| 0 <= i < bsv.len() implies r@->Function_0[i] == bsv[i].1 by {
                                assert(r@->Function_0[i] == v@[i]);
                            }
                        }
                        Some(r)
                    },
                    None => {
                        proof {
                            if pool.terms().contains(key@) {
                                let i = choose|i: int| 0 <= i < pool.terms().len() && pool.terms()[i] == key@;
                                assert(table_contents(pool.table).contains_key(pool.terms()[i]));
                            }
                        }
                        None
                    },
                }
            },
            _ => Some(pool.infer_sort(self)),
        }
    }
}

/// Interning: when a term is added and then a structurally equal term is added, the
/// second call returns the id that the first returned.
pub proof fn lemma_add_interns(p1: TermPool, p2: TermPool, t1: Term, t2: Term, r1: TermId, r2: TermId)
    requires
        p2.wf(),
        p1.extends(p2),
        r1 < p1.terms().len(),
        p1.terms()[r1 as int] == t1@,
        r2 < p2.terms().len(),
        p2.terms()[r2 as int] == t2@,
        t1@ == t2@,
    ensures
        r1 == r2,
{
    assert(p2.terms()[r1 as int] == p1.terms()[r1 as int]);
    p2.lemma_unique(r1, r2);
}

/// Free variables are a function of the pool's terms: two results that meet the contract
/// of [`TermPool::free_vars`] on pools with the same terms and sorts are the same set, so
/// calling it again gives the same set.
pub proof fn lemma_free_vars_repeat(p: TermPool, q: TermPool, t: TermId, r1: Seq<TermId>, r2: Seq<TermId>)
    requires
        q.terms() == p.terms(),
        q.sorts() == p.sorts(),
        r1.to_set() == free_vars_of(p.terms(), p.sorts(), t as int),
        r2.to_set() == free_vars_of(q.terms(), q.sorts(), t as int),
    ensures
        r1.to_set() == r2.to_set(),
{
}

/// The free variables of a quantifier or lambda are those of its body, less exactly the
/// variables that its binding list introduces.
pub proof fn lemma_binder_free_vars(ts: Seq<TermV>, ss: Seq<SortV>, i: int)
    requires
        0 <= i < ts.len(),
        ts[i] is Quant || ts[i] is Lambda,
        refs_below(ts[i], i),
    ensures
        ({
            let (bs, body) = match ts[i] {
                TermV::Quant(_, bs, body) => (bs, body),
                TermV::Lambda(bs, body) => (bs, body),
                _ => (Seq::empty(), 0),
            };
            free_vars_of(ts, ss, i) == free_vars_of(ts, ss, body as int).filter(
                |v: TermId| !bound_by(ts, bs, v),
            )
        }),
{
    let (bs, body) = match ts[i] {
        TermV::Quant(_, bs, body) => (bs, body),
        TermV::Lambda(bs, body) => (bs, body),
        _ => (Seq::empty(), 0),
    };
    assert(free_vars_of(ts, ss, i) =~= free_vars_of(ts, ss, body as int).filter(
        |v: TermId| !bound_by(ts, bs, v),
    ));
}

/// Validity of a term is kept when the pool grows.
proof fn lemma_valid_extends(
    ts: Seq<TermV>,
    ss: Seq<SortV>,
    ts2: Seq<TermV>,
    ss2: Seq<SortV>,
    t: TermV,
)
    requires
        term_valid(ts, ss, t),
        ts.is_prefix_of(ts2),
        ss.is_prefix_of(ss2),
        ss.len() == ts.len(),
    ensures
        term_valid(ts2, ss2, t),
{
    assert(forall|i: int| 0 <= i < ts.len() ==> ts2[i] == ts[i]);
    assert(forall|i: int| 0 <= i < ss.len() ==> ss2[i] == ss[i]);
}

/// The sort rule of a term is kept when the pool grows.
proof fn lemma_sort_rule_extends(
    ts: Seq<TermV>,
    ss: Seq<SortV>,
    ts2: Seq<TermV>,
    ss2: Seq<SortV>,
    t: TermV,
    s: SortV,
)
    requires
        term_valid(ts, ss, t),
        sort_rule(ts, ss, t, s),
        ts.is_prefix_of(ts2),
        ss.is_prefix_of(ss2),
        ss.len() == ts.len(),
    ensures
        sort_rule(ts2, ss2, t, s),
{
    assert(forall|i: int| 0 <= i < ts.len() ==> ts2[i] == ts[i]);
    assert(forall|i: int| 0 <= i < ss.len() ==> ss2[i] == ss[i]);
}

} // verus!