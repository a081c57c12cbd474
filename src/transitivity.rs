//! The equality-chain rules: `eq_transitive`, `trans`, and the elaboration of `trans`
//! into a step (or a subproof with `symm` steps) whose premises form a chain in order.
use crate::ast::{Operator, ProofCommand, ProofStep, Subproof, Term, TermId, TermV};
use crate::checker::{
    assert_clause_len, get_premise_term, CheckerError, Premise, Range, RuleArgs,
};
use crate::pool::{TermPool, term_valid};
use vstd::prelude::*;
use vstd::string::StringExecFns;

verus! {

/// An equality `(= t u)`, as the pair `(t, u)`.
pub type Link = (TermId, TermId);

/// The sides of the term `t` if it is an equality of two terms.
pub open spec fn eq_parts(ts: Seq<TermV>, t: TermId) -> Option<Link> {
    if t < ts.len() {
        match ts[t as int] {
            TermV::Op(op, args) => if op == Operator::Equals && args.len() == 2 {
                Some((args[0], args[1]))
            } else {
                None
            },
            _ => None,
        }
    } else {
        None
    }
}

/// The sides of the equality under `t` if `t` is a negated equality `(not (= x y))`.
pub open spec fn neg_eq_parts(ts: Seq<TermV>, t: TermId) -> Option<Link> {
    if t < ts.len() {
        match ts[t as int] {
            TermV::Op(op, args) => if op == Operator::Not && args.len() == 1 {
                eq_parts(ts, args[0])
            } else {
                None
            },
            _ => None,
        }
    } else {
        None
    }
}

/// Whether the equality `p` has `a` on one of its sides.
pub open spec fn touches(p: Link, a: TermId) -> bool {
    p.0 == a || p.1 == a
}

/// The side of `p` that is reached from `a`: the right side when `a` is on the left.
pub open spec fn other_end(p: Link, a: TermId) -> TermId {
    if p.0 == a {
        p.1
    } else {
        p.0
    }
}

/// The position of the first equality in `s` that has `a` on a side.
pub open spec fn first_touch(s: Seq<Link>, a: TermId) -> int {
    choose|i: int|
        0 <= i < s.len() && touches(s[i], a) && forall|j: int| 0 <= j < i ==> !touches(s[j], a)
}

/// The search for a chain from `a` to `b`: done when `a` is `b`; otherwise the first
/// equality with `a` on a side is taken (moved to the front), and the search goes on
/// from its other side over the rest. `None` when the search reaches `b`; otherwise the
/// term at which no equality was left to continue.
pub open spec fn chain_end(a: TermId, b: TermId, s: Seq<Link>) -> Option<TermId>
    decreases s.len(),
{
    if a == b {
        None
    } else if exists|i: int|
        0 <= i < s.len() && touches(s[i], a) && forall|j: int| 0 <= j < i ==> !touches(s[j], a) {
        let i = first_touch(s, a);
        chain_end(other_end(s[i], a), b, s.update(i, s[0]).drop_first())
    } else {
        Some(a)
    }
}

/// The outcome of the chain search from `a` to `b` over `s`.
pub open spec fn chain_result(a: TermId, b: TermId, s: Seq<Link>) -> Result<(), CheckerError> {
    match chain_end(a, b, s) {
        None => Ok(()),
        Some(x) => Err(CheckerError::BrokenTransitivityChain(x, b)),
    }
}

/// Whether the search from `a` to `b` over `s` takes another step: `a` is not `b`, and
/// some equality has `a` on a side.
pub open spec fn walk_steps(a: TermId, b: TermId, s: Seq<Link>) -> bool {
    a != b && exists|i: int|
        0 <= i < s.len() && touches(s[i], a) && forall|j: int| 0 <= j < i ==> !touches(s[j], a)
}

/// The positions `0..n` in order.
pub open spec fn identity(n: nat) -> Seq<usize> {
    Seq::new(n, |k: int| k as usize)
}

/// The order in which the search leaves the entries of `ord`, which are moved along with
/// the equalities of `s`: each step takes the first equality with the current term on a
/// side to the front, and the rest stay where the swaps put them.
pub open spec fn walk_order(a: TermId, b: TermId, s: Seq<Link>, ord: Seq<usize>) -> Seq<usize>
    decreases s.len(),
{
    if walk_steps(a, b, s) {
        let i = first_touch(s, a);
        seq![ord[i]] + walk_order(
            other_end(s[i], a),
            b,
            s.update(i, s[0]).drop_first(),
            ord.update(i, ord[0]).drop_first(),
        )
    } else {
        ord
    }
}

/// For each equality the search takes, in order, whether it was read right to left.
pub open spec fn walk_flips(a: TermId, b: TermId, s: Seq<Link>) -> Seq<bool>
    decreases s.len(),
{
    if walk_steps(a, b, s) {
        let i = first_touch(s, a);
        seq![s[i].0 != a] + walk_flips(other_end(s[i], a), b, s.update(i, s[0]).drop_first())
    } else {
        Seq::empty()
    }
}

/// `s` in the order the positions `ord` give.
pub open spec fn reordered(s: Seq<Link>, ord: Seq<usize>) -> Seq<Link> {
    Seq::new(ord.len(), |k: int| s[ord[k] as int])
}

/// Whether `s`, read in order, is a chain `(a, x1), (x1, x2), ..., (xn, b)`.
pub open spec fn chained(a: TermId, b: TermId, s: Seq<Link>) -> bool
    decreases s.len(),
{
    if s.len() == 0 {
        a == b
    } else {
        s[0].0 == a && chained(s[0].1, b, s.drop_first())
    }
}

/// The equality `p`, with its sides swapped when `flip` holds.
pub open spec fn orient(p: Link, flip: bool) -> Link {
    if flip {
        (p.1, p.0)
    } else {
        p
    }
}

/// The first `flips.len()` equalities of `s`, each oriented by its flag.
pub open spec fn oriented(s: Seq<Link>, flips: Seq<bool>) -> Seq<Link> {
    Seq::new(flips.len(), |k: int| orient(s[k], flips[k]))
}

/// Whether `order` is a permutation of the positions below `n`.
pub open spec fn permutes(order: Seq<usize>, n: int) -> bool {
    &&& order.len() == n
    &&& forall|k: int| 0 <= k < n ==> order[k] < n
    &&& forall|k1: int, k2: int| 0 <= k1 < n && 0 <= k2 < n && k1 != k2 ==> order[k1] != order[k2]
}

/// Appending a link that starts where a chain ends gives a chain.
proof fn lemma_chained_push(a: TermId, m: TermId, s: Seq<Link>, l: Link)
    requires
        chained(a, m, s),
        l.0 == m,
    ensures
        chained(a, l.1, s.push(l)),
    decreases s.len(),
{
    if s.len() > 0 {
        lemma_chained_push(s[0].1, m, s.drop_first(), l);
        assert(s.push(l).drop_first() =~= s.drop_first().push(l));
        assert(s.push(l)[0] == s[0]);
    } else {
        assert(s.push(l).drop_first() =~= Seq::<Link>::empty());
        assert(chained(l.1, l.1, Seq::<Link>::empty()));
        assert(s.push(l)[0] == l);
    }
}

/// A sequence whose first `m` equalities form a chain from `a` to `b`, in order and
/// as written, is accepted by the chain search.
pub proof fn lemma_chained_prefix_accepted(a: TermId, b: TermId, s: Seq<Link>, m: int)
    requires
        0 <= m <= s.len(),
        chained(a, b, s.take(m)),
    ensures
        chain_end(a, b, s) is None,
    decreases m,
{
    if a != b {
        assert(s.take(m).len() > 0);
        assert(s.take(m)[0] == s[0]);
        assert(touches(s[0], a));
        assert(forall|j: int| 0 <= j < 0 ==> !touches(s[j], a));
        let i = first_touch(s, a);
        assert(i == 0);
        assert(s.update(0, s[0]) =~= s);
        assert(s.take(m).drop_first() =~= s.drop_first().take(m - 1));
        lemma_chained_prefix_accepted(s[0].1, b, s.drop_first(), m - 1);
    }
}

/// Swapping two entries of a permutation gives a permutation.
proof fn lemma_swap_permutes(order: Seq<usize>, n: int, i: int, j: int)
    requires
        permutes(order, n),
        0 <= i < n,
        0 <= j < n,
    ensures
        permutes(order.update(i, order[j]).update(j, order[i]), n),
{
    let o2 = order.update(i, order[j]).update(j, order[i]);
    assert forall|k1: int, k2: int| 0 <= k1 < n && 0 <= k2 < n && k1 != k2 implies o2[k1] != o2[k2] by {
        let p1 = if k1 == j { i } else if k1 == i { j } else { k1 };
        let p2 = if k2 == j { i } else if k2 == i { j } else { k2 };
        assert(o2[k1] == order[p1]);
        assert(o2[k2] == order[p2]);
    }
}

/// The search for a chain from `a` to `b`. It moves the equalities it takes to the
/// front, in the order taken, records for each whether it was read right to left, and
/// reports the permutation it applied.
#[verifier::rlimit(50)]
fn chain_core(
    a: TermId,
    b: TermId,
    eqs: &mut Vec<Link>,
    order: &mut Vec<usize>,
    flips: &mut Vec<bool>,
) -> (r: Result<(), CheckerError>)
    requires
        old(flips).len() == 0,
        old(order).len() == old(eqs).len(),
        forall|k: int| 0 <= k < old(order).len() ==> old(order)@[k] == k,
    ensures
        final(eqs).len() == old(eqs).len(),
        permutes(final(order)@, old(eqs).len() as int),
        forall|k: int| 0 <= k < final(eqs).len() ==> final(eqs)@[k] == old(eqs)@[final(order)@[k] as int],
        r == chain_result(a, b, old(eqs)@),
        final(order)@ == walk_order(a, b, old(eqs)@, identity(old(eqs).len() as nat)),
        final(flips)@ == walk_flips(a, b, old(eqs)@),
        final(flips).len() <= final(eqs).len(),
        r is Ok ==> chained(a, b, oriented(final(eqs)@, final(flips)@)),
{
    let ghost eqs0 = eqs@;
    proof {
        assert(order@ =~= identity(n_of(eqs0)));
    }
    let n = eqs.len();
    let mut start: usize = 0;
    let mut lhs = a;
    proof {
        assert(eqs@.subrange(0, n as int) =~= eqs0);
        assert(order@.subrange(0, n as int) =~= order@);
        let w = walk_order(a, b, eqs0, order@);
        assert(order@.take(0) + w =~= w);
        assert(flips@ + walk_flips(a, b, eqs0) =~= walk_flips(a, b, eqs0));
        assert(oriented(eqs@, flips@) =~= Seq::<Link>::empty());
        assert(chained(a, a, Seq::<Link>::empty()));
    }
    loop
        invariant
            eqs.len() == n,
            eqs0 == old(eqs)@,
            n == eqs0.len(),
            permutes(order@, n as int),
            forall|k: int| 0 <= k < n ==> eqs@[k] == eqs0[order@[k] as int],
            flips.len() == start,
            start <= n,
            chained(a, lhs, oriented(eqs@, flips@)),
            chain_end(a, b, eqs0) == chain_end(lhs, b, eqs@.subrange(start as int, n as int)),
            walk_order(a, b, eqs0, identity(n as nat)) == order@.take(start as int) + walk_order(
                lhs,
                b,
                eqs@.subrange(start as int, n as int),
                order@.subrange(start as int, n as int),
            ),
            walk_flips(a, b, eqs0) == flips@ + walk_flips(
                lhs,
                b,
                eqs@.subrange(start as int, n as int),
            ),
        decreases n - start,
    {
        if lhs == b {
            proof {
                assert(order@.take(start as int) + order@.subrange(start as int, n as int) =~= order@);
                assert(flips@ + Seq::<bool>::empty() =~= flips@);
            }
            return Ok(());
        }
        let mut k: usize = start;
        while k < n && !(eqs[k].0 == lhs || eqs[k].1 == lhs)
            invariant
                start <= k <= n,
                eqs.len() == n,
                forall|j: int| start <= j < k ==> !touches(eqs@[j], lhs),
            decreases n - k,
        {
            k += 1;
        }
        let ghost s = eqs@.subrange(start as int, n as int);
        if k == n {
            proof {
                assert forall|i: int| 0 <= i < s.len() implies !touches(s[i], lhs) by {
                    assert(s[i] == eqs@[start + i]);
                }
                assert(!walk_steps(lhs, b, s));
                assert(order@.take(start as int) + order@.subrange(start as int, n as int) =~= order@);
                assert(flips@ + Seq::<bool>::empty() =~= flips@);
            }
            return Err(CheckerError::BrokenTransitivityChain(lhs, b));
        }
        let p = eqs[k];
        let flip = p.0 != lhs;
        let next = if flip {
            p.0
        } else {
            p.1
        };
        proof {
            let i = (k - start) as int;
            assert(s[i] == p);
            assert(touches(s[i], lhs));
            assert forall|j: int| 0 <= j < i implies !touches(s[j], lhs) by {
                assert(s[j] == eqs@[start + j]);
            }
            let ft = first_touch(s, lhs);
            assert(ft == i) by {
                if ft < i {
                    assert(s[ft] == eqs@[start + ft]);
                } else if ft > i {
                }
            }
            assert(next == other_end(s[i], lhs));
            assert(walk_steps(lhs, b, s));
        }
        let ghost old_eqs = eqs@;
        let ghost old_order = order@;
        let first = eqs[start];
        eqs.set(start, p);
        eqs.set(k, first);
        let o_first = order[start];
        let o_k = order[k];
        order.set(start, o_k);
        order.set(k, o_first);
        let ghost old_flips = flips@;
        flips.push(flip);
        proof {
            let i = (k - start) as int;
            let os = old_order.subrange(start as int, n as int);
            assert(eqs@.subrange(start + 1, n as int) =~= s.update(i, s[0]).drop_first());
            assert(order@.subrange(start + 1, n as int) =~= os.update(i, os[0]).drop_first());
            assert(order@.take(start + 1) =~= old_order.take(start as int).push(os[i]));
            let rest = walk_order(next, b, s.update(i, s[0]).drop_first(), os.update(i, os[0]).drop_first());
            assert(walk_order(lhs, b, s, os) == seq![os[i]] + rest);
            assert(old_order.take(start as int) + (seq![os[i]] + rest) =~= old_order.take(start as int).push(
                os[i],
            ) + rest);
            let frest = walk_flips(next, b, s.update(i, s[0]).drop_first());
            assert(walk_flips(lhs, b, s) == seq![flip] + frest);
            assert(old_flips + (seq![flip] + frest) =~= flips@ + frest);
            assert(oriented(eqs@, flips@) =~= oriented(old_eqs, old_flips).push(orient(p, flip)));
            lemma_chained_push(a, lhs, oriented(old_eqs, old_flips), orient(p, flip));
            assert forall|j: int| 0 <= j < n implies eqs@[j] == eqs0[order@[j] as int] by {
                if j == start as int {
                } else if j == k as int {
                } else {
                    assert(eqs@[j] == old_eqs[j]);
                }
            }
            lemma_swap_permutes(old_order, n as int, start as int, k as int);
            assert(order@ =~= old_order.update(start as int, old_order[k as int]).update(
                k as int,
                old_order[start as int],
            ));
        }
        start += 1;
        lhs = next;
    }
}

/// The length of `s`, as a `nat`.
spec fn n_of(s: Seq<Link>) -> nat {
    s.len()
}

/// The positions `0..n` in order.
fn identity_order(n: usize) -> (r: Vec<usize>)
    ensures
        r.len() == n,
        forall|k: int| 0 <= k < n ==> r@[k] == k,
{
    let mut r: Vec<usize> = Vec::new();
    let mut k: usize = 0;
    while k < n
        invariant
            k <= n,
            r.len() == k,
            forall|j: int| 0 <= j < k ==> r@[j] == j,
        decreases n - k,
    {
        r.push(k);
        k += 1;
    }
    r
}

/// Finds a chain of equalities from `conclusion.0` to `conclusion.1` among `premises`,
/// moving the equalities of the chain to the front in chain order. The others are left
/// where the moves put them; with a reflexive conclusion nothing moves.
pub fn find_chain(conclusion: Link, premises: &mut Vec<Link>) -> (r: Result<(), CheckerError>)
    ensures
        r == chain_result(conclusion.0, conclusion.1, old(premises)@),
        final(premises)@ == reordered(
            old(premises)@,
            walk_order(conclusion.0, conclusion.1, old(premises)@, identity(old(premises)@.len())),
        ),
        conclusion.0 == conclusion.1 ==> final(premises)@ == old(premises)@,
        r is Ok ==> chained(
            conclusion.0,
            conclusion.1,
            oriented(final(premises)@, walk_flips(conclusion.0, conclusion.1, old(premises)@)),
        ),
{
    let ghost s0 = premises@;
    let mut order = identity_order(premises.len());
    let mut flips: Vec<bool> = Vec::new();
    let r = chain_core(conclusion.0, conclusion.1, premises, &mut order, &mut flips);
    proof {
        assert(premises@ =~= reordered(s0, order@));
        if conclusion.0 == conclusion.1 {
            assert(order@ == identity(s0.len()));
            assert(premises@ =~= s0);
        }
    }
    r
}

/// Whether two premises are the same.
pub open spec fn same_premise(p: Premise, q: Premise) -> bool {
    p.id == q.id && p.clause@ == q.clause@ && p.index == q.index
}

/// As [`find_chain`], but moves the step premises along with their equalities, and
/// appends to `should_flip`, for each equality of the chain in order, whether it was
/// read right to left.
pub fn reconstruct_chain(
    conclusion: Link,
    premise_equalities: &mut Vec<Link>,
    premises: &mut Vec<Premise>,
    should_flip: &mut Vec<bool>,
) -> (r: Result<(), CheckerError>)
    requires
        old(premises).len() == old(premise_equalities).len(),
    ensures
        r == chain_result(conclusion.0, conclusion.1, old(premise_equalities)@),
        ({
            let w = walk_order(
                conclusion.0,
                conclusion.1,
                old(premise_equalities)@,
                identity(old(premise_equalities)@.len()),
            );
            &&& w.len() == old(premises).len()
            &&& forall|k: int| 0 <= k < w.len() ==> #[trigger] w[k] < old(premises).len()
            &&& final(premise_equalities)@ == reordered(old(premise_equalities)@, w)
            &&& final(premises).len() == old(premises).len()
            &&& forall|k: int|
                0 <= k < old(premises).len() ==> same_premise(
                    #[trigger] final(premises)@[k],
                    old(premises)@[w[k] as int],
                )
        }),
        final(should_flip)@ == old(should_flip)@ + walk_flips(
            conclusion.0,
            conclusion.1,
            old(premise_equalities)@,
        ),
        walk_flips(conclusion.0, conclusion.1, old(premise_equalities)@).len() <= old(
            premise_equalities,
        ).len(),
        r is Ok ==> chained(
            conclusion.0,
            conclusion.1,
            oriented(
                final(premise_equalities)@,
                walk_flips(conclusion.0, conclusion.1, old(premise_equalities)@),
            ),
        ),
{
    let ghost s0 = premise_equalities@;
    let n = premises.len();
    let mut order = identity_order(n);
    let mut flips: Vec<bool> = Vec::new();
    let r = chain_core(conclusion.0, conclusion.1, premise_equalities, &mut order, &mut flips);
    let ghost f0 = should_flip@;
    let mut j: usize = 0;
    while j < flips.len()
        invariant
            j <= flips.len(),
            should_flip@ == f0 + flips@.take(j as int),
        decreases flips.len() - j,
    {
        should_flip.push(flips[j]);
        j += 1;
        proof {
            assert(f0 + flips@.take(j as int) =~= (f0 + flips@.take(j - 1)).push(flips@[j - 1]));
        }
    }
    proof {
        assert(flips@.take(flips.len() as int) =~= flips@);
    }
    let mut moved: Vec<Premise> = Vec::new();
    let mut k: usize = 0;
    while k < n
        invariant
            k <= n,
            n == premises.len(),
            permutes(order@, n as int),
            moved.len() == k,
            forall|j: int| 0 <= j < k ==> same_premise(#[trigger] moved@[j], premises@[order@[j] as int]),
        decreases n - k,
    {
        moved.push(premises[order[k]].duplicate());
        k += 1;
    }
    let ghost old_premises = premises@;
    *premises = moved;
    proof {
        assert(premise_equalities@ =~= reordered(s0, order@));
        assert(forall|k: int| 0 <= k < n ==> same_premise(premises@[k], old_premises[order@[k] as int]));
    }
    r
}

/// The equality a literal `(not (= t u))` negates, or the error for a literal of
/// another shape.
pub open spec fn neg_link_result(ts: Seq<TermV>, t: TermId) -> Result<Link, CheckerError> {
    match neg_eq_parts(ts, t) {
        Some(l) => Ok(l),
        None => Err(CheckerError::TermOfWrongForm(t)),
    }
}

/// The equality a premise states, or the error for a premise that is not a unit
/// equality.
pub open spec fn premise_link(ts: Seq<TermV>, p: Premise) -> Result<Link, CheckerError> {
    if p.clause@.len() != 1 {
        Err(
            CheckerError::WrongLengthOfPremiseClause(
                p.id,
                Range { min: 1, max: Some(1) },
                p.clause@.len() as usize,
            ),
        )
    } else {
        match eq_parts(ts, p.clause@[0]) {
            Some(l) => Ok(l),
            None => Err(CheckerError::TermOfWrongForm(p.clause@[0])),
        }
    }
}

/// Whether position `k` holds the first error of `rs`.
pub open spec fn is_first_err(rs: Seq<Result<Link, CheckerError>>, k: int) -> bool {
    0 <= k < rs.len() && rs[k] is Err && forall|j: int| 0 <= j < k ==> rs[j] is Ok
}

/// The equality in `r`, if there is one.
pub open spec fn ok_link(r: Result<Link, CheckerError>) -> Link {
    match r {
        Ok(l) => l,
        Err(_) => (0, 0),
    }
}

/// The equalities of `rs`, or the first error among them.
pub open spec fn collect_links(rs: Seq<Result<Link, CheckerError>>) -> Result<
    Seq<Link>,
    CheckerError,
> {
    if exists|k: int| is_first_err(rs, k) {
        match rs[choose|k: int| is_first_err(rs, k)] {
            Err(e) => Err(e),
            Ok(_) => Ok(Seq::empty()),
        }
    } else {
        Ok(Seq::new(rs.len(), |k: int| ok_link(rs[k])))
    }
}

/// What `eq_transitive` decides on the clause `c`.
pub open spec fn eq_transitive_outcome(ts: Seq<TermV>, c: Seq<TermId>) -> Result<(), CheckerError> {
    if c.len() < 3 {
        Err(CheckerError::WrongLengthOfClause(Range { min: 3, max: None }, c.len() as usize))
    } else {
        match eq_parts(ts, c.last()) {
            None => Err(CheckerError::TermOfWrongForm(c.last())),
            Some(target) => match collect_links(
                Seq::new((c.len() - 1) as nat, |k: int| neg_link_result(ts, c[k])),
            ) {
                Err(e) => Err(e),
                Ok(links) => chain_result(target.0, target.1, links),
            },
        }
    }
}

/// What `trans` decides on the conclusion `c` and the premises `ps`.
pub open spec fn trans_outcome(ts: Seq<TermV>, c: Seq<TermId>, ps: Seq<Premise>) -> Result<
    (),
    CheckerError,
> {
    if c.len() != 1 {
        Err(CheckerError::WrongLengthOfClause(Range { min: 1, max: Some(1) }, c.len() as usize))
    } else {
        match eq_parts(ts, c[0]) {
            None => Err(CheckerError::TermOfWrongForm(c[0])),
            Some(target) => match collect_links(ps.map_values(|p: Premise| premise_link(ts, p))) {
                Err(e) => Err(e),
                Ok(links) => chain_result(target.0, target.1, links),
            },
        }
    }
}

/// The sides of `t` if it is an equality.
fn match_equality(pool: &TermPool, t: TermId) -> (r: Option<Link>)
    requires
        pool.wf(),
    ensures
        r == eq_parts(pool.terms(), t),
{
    if t >= pool.len() {
        return None;
    }
    match pool.term(t) {
        Term::Op(Operator::Equals, args) => if args.len() == 2 {
            Some((args[0], args[1]))
        } else {
            None
        },
        _ => None,
    }
}

/// The sides of the equality under `t` if `t` is a negated equality.
fn match_negated_equality(pool: &TermPool, t: TermId) -> (r: Option<Link>)
    requires
        pool.wf(),
    ensures
        r == neg_eq_parts(pool.terms(), t),
{
    if t >= pool.len() {
        return None;
    }
    match pool.term(t) {
        Term::Op(Operator::Not, args) => if args.len() == 1 {
            match_equality(pool, args[0])
        } else {
            None
        },
        _ => None,
    }
}

/// After a loop that found `rs[k]` to be the first error.
proof fn lemma_first_err(rs: Seq<Result<Link, CheckerError>>, k: int)
    requires
        is_first_err(rs, k),
    ensures
        collect_links(rs) == match rs[k] {
            Err(e) => Err::<Seq<Link>, CheckerError>(e),
            Ok(_) => Ok(Seq::empty()),
        },
{
    let c = choose|j: int| is_first_err(rs, j);
    assert(is_first_err(rs, c));
    if c < k {
    } else if c > k {
        assert(rs[k] is Ok);
    }
}

/// The equalities negated by the first `n` literals of `c`.
fn negated_equalities(pool: &TermPool, c: &[TermId], n: usize) -> (r: Result<
    Vec<Link>,
    CheckerError,
>)
    requires
        pool.wf(),
        n <= c.len(),
    ensures
        match r {
            Ok(v) => collect_links(Seq::new(n as nat, |k: int| neg_link_result(pool.terms(), c@[k])))
                == Ok::<Seq<Link>, CheckerError>(v@),
            Err(e) => collect_links(
                Seq::new(n as nat, |k: int| neg_link_result(pool.terms(), c@[k])),
            ) == Err::<Seq<Link>, CheckerError>(e),
        },
{
    let ghost rs = Seq::new(n as nat, |k: int| neg_link_result(pool.terms(), c@[k]));
    let mut v: Vec<Link> = Vec::new();
    let mut k: usize = 0;
    while k < n
        invariant
            k <= n,
            n <= c.len(),
            pool.wf(),
            rs == Seq::new(n as nat, |k: int| neg_link_result(pool.terms(), c@[k])),
            v.len() == k,
            forall|j: int| 0 <= j < k ==> rs[j] == Ok::<Link, CheckerError>(#[trigger] v@[j]),
        decreases n - k,
    {
        match match_negated_equality(pool, c[k]) {
            Some(l) => v.push(l),
            None => {
                proof {
                    assert forall|j: int| 0 <= j < k implies rs[j] is Ok by {
                        assert(rs[j] == Ok::<Link, CheckerError>(v@[j]));
                    }
                    assert(is_first_err(rs, k as int));
                    lemma_first_err(rs, k as int);
                }
                return Err(CheckerError::TermOfWrongForm(c[k]));
            },
        }
        k += 1;
    }
    proof {
        assert forall|j: int| !is_first_err(rs, j) by {
            if 0 <= j < n {
                assert(rs[j] == Ok::<Link, CheckerError>(v@[j]));
            }
        }
        assert(Seq::new(rs.len(), |k: int| ok_link(rs[k])) =~= v@);
    }
    Ok(v)
}

/// The equalities stated by the premises.
fn premise_equalities(pool: &TermPool, premises: &[Premise]) -> (r: Result<
    Vec<Link>,
    CheckerError,
>)
    requires
        pool.wf(),
    ensures
        match r {
            Ok(v) => collect_links(premises@.map_values(|p: Premise| premise_link(pool.terms(), p)))
                == Ok::<Seq<Link>, CheckerError>(v@) && v@.len() == premises@.len() && forall|k: int|
                0 <= k < premises@.len() ==> premise_link(pool.terms(), #[trigger] premises@[k]) == Ok::<
                    Link,
                    CheckerError,
                >(v@[k]),
            Err(e) => collect_links(
                premises@.map_values(|p: Premise| premise_link(pool.terms(), p)),
            ) == Err::<Seq<Link>, CheckerError>(e),
        },
{
    let ghost rs = premises@.map_values(|p: Premise| premise_link(pool.terms(), p));
    let mut v: Vec<Link> = Vec::new();
    let mut k: usize = 0;
    while k < premises.len()
        invariant
            k <= premises.len(),
            pool.wf(),
            rs == premises@.map_values(|p: Premise| premise_link(pool.terms(), p)),
            v.len() == k,
            forall|j: int| 0 <= j < k ==> rs[j] == Ok::<Link, CheckerError>(#[trigger] v@[j]),
        decreases premises.len() - k,
    {
        let t = match get_premise_term(&premises[k]) {
            Ok(t) => t,
            Err(e) => {
                proof {
                    assert forall|j: int| 0 <= j < k implies rs[j] is Ok by {
                        assert(rs[j] == Ok::<Link, CheckerError>(v@[j]));
                    }
                    assert(is_first_err(rs, k as int));
                    lemma_first_err(rs, k as int);
                }
                return Err(e);
            },
        };
        match match_equality(pool, t) {
            Some(l) => v.push(l),
            None => {
                proof {
                    assert forall|j: int| 0 <= j < k implies rs[j] is Ok by {
                        assert(rs[j] == Ok::<Link, CheckerError>(v@[j]));
                    }
                    assert(is_first_err(rs, k as int));
                    lemma_first_err(rs, k as int);
                }
                return Err(CheckerError::TermOfWrongForm(t));
            },
        }
        k += 1;
    }
    proof {
        assert forall|j: int| !is_first_err(rs, j) by {
            if 0 <= j < rs.len() {
                assert(rs[j] == Ok::<Link, CheckerError>(v@[j]));
            }
        }
        assert(Seq::new(rs.len(), |k: int| ok_link(rs[k])) =~= v@);
        assert forall|k: int| 0 <= k < premises@.len() implies premise_link(pool.terms(), #[trigger] premises@[k])
            == Ok::<Link, CheckerError>(v@[k]) by {
            assert(rs[k] == Ok::<Link, CheckerError>(v@[k]));
        }
    }
    Ok(v)
}

/// The rule `eq_transitive`: the clause is `(not (= x1 x2)) ... (not (= xk-1 xk)) (= a b)`,
/// with at least three literals, and the negated equalities form a chain from `a` to `b`.
pub fn eq_transitive(args: RuleArgs, pool: &TermPool) -> (r: Result<(), CheckerError>)
    requires
        pool.wf(),
    ensures
        r == eq_transitive_outcome(pool.terms(), args.conclusion@),
{
    let conclusion = args.conclusion;
    let range = Range::at_least(3);
    if let Err(e) = assert_clause_len(conclusion, range) {
        proof {
            assert(conclusion@.len() == conclusion.len());
            assert(e == CheckerError::WrongLengthOfClause(range, conclusion@.len() as usize));
        }
        return Err(e);
    }
    let n = conclusion.len();
    let target = match match_equality(pool, conclusion[n - 1]) {
        Some(l) => l,
        None => return Err(CheckerError::TermOfWrongForm(conclusion[n - 1])),
    };
    let mut premises = match negated_equalities(pool, conclusion, n - 1) {
        Ok(v) => v,
        Err(e) => return Err(e),
    };
    find_chain(target, &mut premises)
}

/// The rule `trans`: the conclusion is a unit equality `(= a b)`, each premise is a
/// unit equality, and the premises form a chain from `a` to `b`.
pub fn trans(args: RuleArgs, pool: &TermPool) -> (r: Result<(), CheckerError>)
    requires
        pool.wf(),
    ensures
        r == trans_outcome(pool.terms(), args.conclusion@, args.premises@),
{
    let conclusion = args.conclusion;
    if let Err(e) = assert_clause_len(conclusion, Range::exactly(1)) {
        return Err(e);
    }
    let target = match match_equality(pool, conclusion[0]) {
        Some(l) => l,
        None => return Err(CheckerError::TermOfWrongForm(conclusion[0])),
    };
    let mut premises = match premise_equalities(pool, args.premises) {
        Ok(v) => v,
        Err(e) => return Err(e),
    };
    find_chain(target, &mut premises)
}

/// The decimal digit `d`.
pub open spec fn digit(d: nat) -> char {
    if d == 0 { '0' } else if d == 1 { '1' } else if d == 2 { '2' } else if d == 3 { '3' }
    else if d == 4 { '4' } else if d == 5 { '5' } else if d == 6 { '6' } else if d == 7 { '7' }
    else if d == 8 { '8' } else { '9' }
}

/// `n` written in decimal.
pub open spec fn decimal(n: nat) -> Seq<char>
    decreases n,
{
    if n < 10 {
        seq![digit(n)]
    } else {
        decimal(n / 10).push(digit(n % 10))
    }
}

/// The name of the `k`-th step generated inside the elaboration of step `base`.
pub open spec fn generated_id(base: Seq<char>, k: nat) -> Seq<char> {
    base + seq!['.', 't'] + decimal(k)
}

/// The digit `d` as a string.
fn digit_str(d: usize) -> (r: &'static str)
    requires
        d < 10,
    ensures
        r@ == seq![digit(d as nat)],
{
    proof {
        reveal_strlit("0");
        reveal_strlit("1");
        reveal_strlit("2");
        reveal_strlit("3");
        reveal_strlit("4");
        reveal_strlit("5");
        reveal_strlit("6");
        reveal_strlit("7");
        reveal_strlit("8");
        reveal_strlit("9");
    }
    let r = if d == 0 { "0" } else if d == 1 { "1" } else if d == 2 { "2" } else if d == 3 {
        "3"
    } else if d == 4 { "4" } else if d == 5 { "5" } else if d == 6 { "6" } else if d == 7 {
        "7"
    } else if d == 8 { "8" } else { "9" };
    proof {
        assert(r@ =~= seq![digit(d as nat)]);
    }
    r
}

/// `n` written in decimal.
fn decimal_string(n: usize) -> (r: String)
    ensures
        r@ == decimal(n as nat),
    decreases n,
{
    if n < 10 {
        <String as StringExecFns>::from_str(digit_str(n))
    } else {
        let mut r = decimal_string(n / 10);
        r.append(digit_str(n % 10));
        proof {
            assert(decimal(n as nat) == decimal((n / 10) as nat).push(digit((n % 10) as nat)));
            assert(r@ =~= decimal(n as nat));
        }
        r
    }
}

/// The name `<base>.t<k>` of a step generated inside the elaboration of step `base`.
fn generated_step_id(base: &String, k: usize) -> (r: String)
    ensures
        r@ == generated_id(base@, k as nat),
{
    let mut r = base.clone();
    proof {
        reveal_strlit(".t");
    }
    r.append(".t");
    let digits = decimal_string(k);
    r.append(digits.as_str());
    proof {
        assert(r@ =~= generated_id(base@, k as nat));
    }
    r
}

/// Whether `st` is the `trans` step named `id` concluding `c`, with no arguments.
pub open spec fn is_trans_step(st: ProofStep, id: String, c: Seq<TermId>) -> bool {
    &&& st.id == id
    &&& st.clause@ == c
    &&& st.rule@ == seq!['t', 'r', 'a', 'n', 's']
    &&& st.args@.len() == 0
    &&& st.discharge@.len() == 0
}

/// Whether `st` is a `symm` step that takes the premise `p`, which states `l`, to the
/// equality with the sides of `l` swapped.
pub open spec fn is_symm_step(ts: Seq<TermV>, st: ProofStep, p: Premise, l: Link) -> bool {
    &&& st.rule@ == seq!['s', 'y', 'm', 'm']
    &&& st.premises@ == seq![p.index]
    &&& st.clause@.len() == 1
    &&& eq_parts(ts, st.clause@[0]) == Some((l.1, l.0))
    &&& st.args@.len() == 0
    &&& st.discharge@.len() == 0
}

/// Whether position `k` of the chain was read right to left.
pub open spec fn flipped(flips: Seq<bool>, k: int) -> bool {
    0 <= k < flips.len() && flips[k]
}

/// How many of the positions below `k` were read right to left.
pub open spec fn count_flips(flips: Seq<bool>, k: int) -> nat
    decreases k,
{
    if k <= 0 {
        0
    } else {
        count_flips(flips, k - 1) + if flipped(flips, k - 1) {
            1nat
        } else {
            0nat
        }
    }
}

proof fn lemma_count_flips_bound(flips: Seq<bool>, k: int)
    requires
        0 <= k,
    ensures
        count_flips(flips, k) <= k,
    decreases k,
{
    if k > 0 {
        lemma_count_flips_bound(flips, k - 1);
    }
}

proof fn lemma_count_flips_mono(flips: Seq<bool>, k: int, j: int)
    requires
        0 <= k <= j,
    ensures
        count_flips(flips, k) <= count_flips(flips, j),
    decreases j - k,
{
    if k < j {
        lemma_count_flips_mono(flips, k, j - 1);
    }
}

/// The equalities the premises `ps` state, in the pool `ts`.
pub open spec fn premise_links(ts: Seq<TermV>, ps: Seq<Premise>) -> Seq<Link> {
    Seq::new(ps.len(), |k: int| ok_link(premise_link(ts, ps[k])))
}

/// The equality that the unit clause `c` states.
pub open spec fn target_of(ts: Seq<TermV>, c: Seq<TermId>) -> Link {
    match eq_parts(ts, c[0]) {
        Some(l) => l,
        None => (0, 0),
    }
}

/// The order in which the elaboration of a `trans` step with conclusion `c` lists the
/// premises `ps`: the order of the chain search.
pub open spec fn elab_order(ts: Seq<TermV>, c: Seq<TermId>, ps: Seq<Premise>) -> Seq<usize> {
    walk_order(target_of(ts, c).0, target_of(ts, c).1, premise_links(ts, ps), identity(ps.len()))
}

/// Which premises, in that order, the chain reads right to left.
pub open spec fn elab_flips(ts: Seq<TermV>, c: Seq<TermId>, ps: Seq<Premise>) -> Seq<bool> {
    walk_flips(target_of(ts, c).0, target_of(ts, c).1, premise_links(ts, ps))
}

/// Whether `cmd` is the elaboration of the `trans` step named `id`, at depth `depth`,
/// concluding `c`, with premises `ps`. The premises are taken in the order of the chain
/// search. With no premise read right to left it is one `trans` step over them.
/// Otherwise it is a subproof: for the `j`-th premise read right to left (counting from
/// zero), a `symm` step named `<id>.t<j+1>` at position `j` that derives it swapped; then
/// the `trans` step, whose premise in that premise's place is that `symm` step.
pub open spec fn elaborates(
    ts: Seq<TermV>,
    c: Seq<TermId>,
    ps: Seq<Premise>,
    depth: usize,
    id: String,
    cmd: ProofCommand,
) -> bool {
    let n = ps.len();
    let eqs = premise_links(ts, ps);
    let w = elab_order(ts, c, ps);
    let flips = elab_flips(ts, c, ps);
    &&& c.len() == 1
    &&& eq_parts(ts, c[0]) is Some
    &&& forall|k: int| 0 <= k < n ==> premise_link(ts, #[trigger] ps[k]) is Ok
    &&& w.len() == n
    &&& forall|k: int| 0 <= k < n ==> #[trigger] w[k] < n
    &&& flips.len() <= n
    &&& chained(target_of(ts, c).0, target_of(ts, c).1, oriented(reordered(eqs, w), flips))
    &&& if forall|k: int| 0 <= k < flips.len() ==> !flips[k] {
        &&& cmd is Step
        &&& is_trans_step(cmd->Step_0, id, c)
        &&& cmd->Step_0.premises@ == Seq::new(n, |k: int| ps[w[k] as int].index)
    } else {
        &&& cmd is Subproof
        &&& {
            let sp = cmd->Subproof_0;
            let st = sp.commands@.last()->Step_0;
            &&& sp.commands@.len() == count_flips(flips, n as int) + 1
            &&& sp.assignment_args@.len() == 0
            &&& sp.variable_args@.len() == 0
            &&& sp.commands@.last() is Step
            &&& is_trans_step(st, id, c)
            &&& st.premises@.len() == n
            &&& forall|k: int|
                0 <= k < n ==> if flipped(flips, k) {
                    let j = count_flips(flips, k);
                    &&& #[trigger] st.premises@[k] == ((depth + 1) as usize, j as usize)
                    &&& sp.commands@[j as int] is Step
                    &&& is_symm_step(ts, sp.commands@[j as int]->Step_0, ps[w[k] as int], eqs[w[k] as int])
                    &&& sp.commands@[j as int]->Step_0.id@ == generated_id(id@, j + 1)
                } else {
                    st.premises@[k] == ps[w[k] as int].index
                }
        }
    }
}

/// The equality a term states is kept when the pool grows.
proof fn lemma_eq_parts_extends(ts: Seq<TermV>, ts2: Seq<TermV>, t: TermId)
    requires
        ts.is_prefix_of(ts2),
        eq_parts(ts, t) is Some,
    ensures
        eq_parts(ts2, t) == eq_parts(ts, t),
{
    assert(ts2[t as int] == ts[t as int]);
}

/// What the elaborator's loop has built for the premise at position `k` of the reordered
/// premises `rp`: the `trans` step's premise `tp[k]`, and for a premise read right to left
/// its `symm` step among `cmds`.
spec fn slot_ok(
    ts: Seq<TermV>,
    flips: Seq<bool>,
    tp: Seq<(usize, usize)>,
    cmds: Seq<ProofCommand>,
    rp: Seq<Premise>,
    eqs: Seq<Link>,
    depth: usize,
    id: Seq<char>,
    k: int,
) -> bool {
    if flipped(flips, k) {
        let i = count_flips(flips, k);
        &&& tp[k] == ((depth + 1) as usize, i as usize)
        &&& i < cmds.len()
        &&& cmds[i as int] is Step
        &&& is_symm_step(ts, cmds[i as int]->Step_0, rp[k], eqs[k])
        &&& cmds[i as int]->Step_0.id@ == generated_id(id, i + 1)
    } else {
        tp[k] == rp[k].index
    }
}

/// Copies of the premises.
fn duplicate_premises(ps: &[Premise]) -> (r: Vec<Premise>)
    ensures
        r.len() == ps.len(),
        forall|k: int| 0 <= k < ps.len() ==> same_premise(#[trigger] r@[k], ps@[k]),
{
    let mut r: Vec<Premise> = Vec::new();
    let mut k: usize = 0;
    while k < ps.len()
        invariant
            k <= ps.len(),
            r.len() == k,
            forall|j: int| 0 <= j < k ==> same_premise(#[trigger] r@[j], ps@[j]),
        decreases ps.len() - k,
    {
        r.push(ps[k].duplicate());
        k += 1;
    }
    r
}

/// The places of the premises.
fn premise_indices(ps: &Vec<Premise>) -> (r: Vec<(usize, usize)>)
    ensures
        r@ == Seq::new(ps.len() as nat, |k: int| ps@[k].index),
{
    let mut r: Vec<(usize, usize)> = Vec::new();
    let mut k: usize = 0;
    while k < ps.len()
        invariant
            k <= ps.len(),
            r.len() == k,
            forall|j: int| 0 <= j < k ==> r@[j] == ps@[j].index,
        decreases ps.len() - k,
    {
        r.push(ps[k].index);
        k += 1;
    }
    proof {
        assert(r@ =~= Seq::new(ps.len() as nat, |k: int| ps@[k].index));
    }
    r
}

/// Whether any flag is set.
fn any_flip(flips: &Vec<bool>) -> (r: bool)
    ensures
        r == !(forall|k: int| 0 <= k < flips.len() ==> !flips@[k]),
{
    let mut k: usize = 0;
    while k < flips.len()
        invariant
            k <= flips.len(),
            forall|j: int| 0 <= j < k ==> !flips@[j],
        decreases flips.len() - k,
    {
        if flips[k] {
            return true;
        }
        k += 1;
    }
    false
}

/// The elaboration of a `trans` step named `command_index` at depth `current_depth`. It
/// fails as [`trans`] would, leaving the pool as it was. Otherwise it reorders the
/// premises as the chain search does; when the chain reads some of them right to left it
/// wraps the step in a subproof that first derives each of those, swapped, by a `symm`
/// step.
#[verifier::rlimit(100)]
pub fn reconstruct_trans(
    args: RuleArgs,
    pool: &mut TermPool,
    command_index: String,
    current_depth: usize,
) -> (r: Result<ProofCommand, CheckerError>)
    requires
        old(pool).wf(),
        old(pool).terms().len() + 2 * args.premises@.len() <= usize::MAX,
        current_depth < usize::MAX,
    ensures
        final(pool).wf(),
        old(pool).extends(*final(pool)),
        r is Ok <==> trans_outcome(old(pool).terms(), args.conclusion@, args.premises@) is Ok,
        r matches Err(e) ==> trans_outcome(old(pool).terms(), args.conclusion@, args.premises@)
            == Err::<(), CheckerError>(e),
        r is Err ==> *final(pool) == *old(pool),
        r matches Ok(cmd) ==> elaborates(
            final(pool).terms(),
            args.conclusion@,
            args.premises@,
            current_depth,
            command_index,
            cmd,
        ),
{
    let conclusion = args.conclusion;
    if let Err(e) = assert_clause_len(conclusion, Range::exactly(1)) {
        return Err(e);
    }
    let target = match match_equality(pool, conclusion[0]) {
        Some(l) => l,
        None => return Err(CheckerError::TermOfWrongForm(conclusion[0])),
    };
    let mut eqs = match premise_equalities(pool, args.premises) {
        Ok(v) => v,
        Err(e) => return Err(e),
    };
    let ghost ts0 = pool.terms();
    let ghost ps = args.premises@;
    let ghost c = conclusion@;
    let ghost eqs0 = eqs@;
    let n = args.premises.len();
    proof {
        assert(eqs0 =~= premise_links(ts0, ps));
        assert(target_of(ts0, c) == target);
    }
    let mut new_premises = duplicate_premises(args.premises);
    let ghost dup = new_premises@;
    let mut should_flip: Vec<bool> = Vec::new();
    if let Err(e) = reconstruct_chain(target, &mut eqs, &mut new_premises, &mut should_flip) {
        return Err(e);
    }
    let ghost w = elab_order(ts0, c, ps);
    let ghost flips_spec = elab_flips(ts0, c, ps);
    proof {
        assert(should_flip@ =~= elab_flips(ts0, c, ps));
        assert(forall|k: int| 0 <= k < n ==> premise_link(ts0, #[trigger] ps[k]) == Ok::<Link, CheckerError>(eqs0[k]));
        assert forall|k: int| 0 <= k < n implies #[trigger] w[k] < n && premise_link(ts0, new_premises@[k])
            == Ok::<Link, CheckerError>(eqs@[k]) && same_premise(new_premises@[k], ps[w[k] as int])
            && eqs@[k] == eqs0[w[k] as int] by {
            let o = w[k] as int;
            assert(same_premise(new_premises@[k], dup[o]));
            assert(same_premise(dup[o], ps[o]));
            assert(premise_link(ts0, ps[o]) == Ok::<Link, CheckerError>(eqs0[o]));
        }
    }
    let any = any_flip(&should_flip);
    if !any {
        let step = ProofStep {
            id: command_index,
            clause: crate::ast::duplicate_ids(conclusion),
            rule: "trans".to_owned(),
            premises: premise_indices(&new_premises),
            args: Vec::new(),
            discharge: Vec::new(),
        };
        proof {
            reveal_strlit("trans");
            assert("trans"@ =~= seq!['t', 'r', 'a', 'n', 's']);
        }
        let ghost step_view = step;
        let cmd = ProofCommand::Step(step);
        proof {
            assert(is_trans_step(step_view, command_index, c));
            assert(step_view.premises@ =~= Seq::new(n as nat, |k: int| ps[w[k] as int].index));
            assert(eqs@ =~= reordered(eqs0, w));
            assert(pool.terms() == ts0);
            assert(chained(target.0, target.1, oriented(reordered(eqs0, w), flips_spec)));
            assert(forall|k: int| 0 <= k < flips_spec.len() ==> !flips_spec[k]);
            assert(forall|k: int| 0 <= k < n ==> premise_link(ts0, #[trigger] ps[k]) is Ok);
        }
        return Ok(cmd);
    }
    let mut commands: Vec<ProofCommand> = Vec::new();
    let mut trans_premises: Vec<(usize, usize)> = Vec::new();
    let ghost p0 = *pool;
    let ghost flips = should_flip@;
    let mut j: usize = 0;
    while j < n
        invariant
            pool.wf(),
            p0.wf(),
            p0.extends(*pool),
            ts0 == p0.terms(),
            pool.terms().len() <= ts0.len() + 2 * j,
            ts0.len() + 2 * n <= usize::MAX,
            j <= n,
            n == args.premises@.len(),
            current_depth < usize::MAX,
            eqs.len() == n,
            new_premises.len() == n,
            should_flip@ == flips,
            flips.len() <= n,
            forall|k: int| 0 <= k < n ==> premise_link(ts0, #[trigger] new_premises@[k])
                == Ok::<Link, CheckerError>(eqs@[k]),
            trans_premises.len() == j,
            commands.len() == count_flips(flips, j as int),
            forall|k: int|
                0 <= k < j ==> #[trigger] slot_ok(
                    pool.terms(),
                    flips,
                    trans_premises@,
                    commands@,
                    new_premises@,
                    eqs@,
                    current_depth,
                    command_index@,
                    k,
                ),
        decreases n - j,
    {
        let ghost cmds_before = commands@;
        let ghost tp_before = trans_premises@;
        if j < should_flip.len() && should_flip[j] {
            let (a, b) = eqs[j];
            let ghost ts_before = pool.terms();
            proof {
                lemma_count_flips_bound(flips, j as int);
                let p = new_premises@[j as int];
                assert(premise_link(ts0, p) == Ok::<Link, CheckerError>((a, b)));
                let t = p.clause@[0];
                assert(eq_parts(ts0, t) == Some((a, b)));
                p0.lemma_refs(t);
                p0.lemma_wf();
                assert(ts0[t as int] == ts_before[t as int]);
                pool.lemma_wf();
                assert(crate::pool::refs_below(TermV::Op(Operator::Equals, seq![b, a]), ts_before.len() as int));
            }
            let eq_args = vec![b, a];
            proof {
                assert(eq_args@ =~= seq![b, a]);
            }
            let t = pool.add(Term::Op(Operator::Equals, eq_args));
            let i = commands.len();
            let id = generated_step_id(&command_index, i + 1);
            let symm = ProofStep {
                id,
                clause: vec![t],
                rule: "symm".to_owned(),
                premises: vec![new_premises[j].index],
                args: Vec::new(),
                discharge: Vec::new(),
            };
            proof {
                reveal_strlit("symm");
                assert("symm"@ =~= seq!['s', 'y', 'm', 'm']);
                assert(symm.clause@ =~= seq![t]);
                assert(symm.premises@ =~= seq![new_premises@[j as int].index]);
                assert(eq_parts(pool.terms(), t) == Some((b, a)));
                assert(symm.rule@ == seq!['s', 'y', 'm', 'm']);
                assert(eqs@[j as int] == (a, b));
                assert(is_symm_step(pool.terms(), symm, new_premises@[j as int], eqs@[j as int]));
            }
            commands.push(ProofCommand::Step(symm));
            trans_premises.push((current_depth + 1, i));
            proof {
                assert(count_flips(flips, j + 1) == count_flips(flips, j as int) + 1);
                assert forall|k: int| 0 <= k < j && flipped(flips, k) implies count_flips(flips, k) < i by {
                    lemma_count_flips_mono(flips, k + 1, j as int);
                }
                assert forall|k: int| 0 <= k < j && flipped(flips, k) implies commands@[count_flips(flips, k) as int]
                    == cmds_before[count_flips(flips, k) as int] by {
                    lemma_count_flips_mono(flips, k + 1, j as int);
                }
                assert forall|k: int| 0 <= k < j + 1 implies #[trigger] slot_ok(
                    pool.terms(),
                    flips,
                    trans_premises@,
                    commands@,
                    new_premises@,
                    eqs@,
                    current_depth,
                    command_index@,
                    k,
                ) by {
                    if k < j {
                        assert(slot_ok(ts_before, flips, tp_before, cmds_before, new_premises@, eqs@, current_depth, command_index@, k));
                        assert(trans_premises@[k] == tp_before[k]);
                        if flipped(flips, k) {
                            lemma_count_flips_mono(flips, k + 1, j as int);
                            let st = cmds_before[count_flips(flips, k) as int]->Step_0;
                            let u = st.clause@[0];
                            assert(ts_before.is_prefix_of(pool.terms()));
                            lemma_eq_parts_extends(ts_before, pool.terms(), u);
                        }
                    }
                }
            }
        } else {
            trans_premises.push(new_premises[j].index);
            proof {
                assert(count_flips(flips, j + 1) == count_flips(flips, j as int));
                assert forall|k: int| 0 <= k < j + 1 implies #[trigger] slot_ok(
                    pool.terms(),
                    flips,
                    trans_premises@,
                    commands@,
                    new_premises@,
                    eqs@,
                    current_depth,
                    command_index@,
                    k,
                ) by {
                    if k < j {
                        assert(slot_ok(pool.terms(), flips, tp_before, commands@, new_premises@, eqs@, current_depth, command_index@, k));
                        assert(trans_premises@[k] == tp_before[k]);
                    }
                }
            }
        }
        j += 1;
    }
    let ghost tp_final = trans_premises@;
    let step = ProofStep {
        id: command_index,
        clause: crate::ast::duplicate_ids(conclusion),
        rule: "trans".to_owned(),
        premises: trans_premises,
        args: Vec::new(),
        discharge: Vec::new(),
    };
    proof {
        reveal_strlit("trans");
        assert("trans"@ =~= seq!['t', 'r', 'a', 'n', 's']);
    }
    let ghost step_view = step;
    let ghost cmds0 = commands@;
    commands.push(ProofCommand::Step(step));
    let cmd = ProofCommand::Subproof(
        Subproof { commands, assignment_args: Vec::new(), variable_args: Vec::new() },
    );
    proof {
        let ts1 = pool.terms();
        assert(ts0.is_prefix_of(ts1));
        assert forall|k: int| 0 <= k < n implies premise_link(ts1, #[trigger] ps[k]) == premise_link(
            ts0,
            ps[k],
        ) by {
            assert(premise_link(ts0, ps[k]) == Ok::<Link, CheckerError>(eqs0[k]));
            lemma_eq_parts_extends(ts0, ts1, ps[k].clause@[0]);
        }
        lemma_eq_parts_extends(ts0, ts1, c[0]);
        assert(premise_links(ts1, ps) =~= premise_links(ts0, ps));
        assert(target_of(ts1, c) == target_of(ts0, c));
        assert(eqs@ =~= reordered(eqs0, w));
        assert(elab_order(ts1, c, ps) == w);
        assert(elab_flips(ts1, c, ps) == flips);
        let sp = cmd->Subproof_0;
        let st = sp.commands@.last()->Step_0;
        assert(st == step_view);
        assert(sp.commands@.len() == cmds0.len() + 1);
        assert forall|k: int|
            0 <= k < n implies if flipped(flips, k) {
                let i = count_flips(flips, k);
                &&& #[trigger] st.premises@[k] == ((current_depth + 1) as usize, i as usize)
                &&& i < sp.commands@.len() - 1
                &&& sp.commands@[i as int] is Step
                &&& is_symm_step(ts1, sp.commands@[i as int]->Step_0, new_premises@[k], eqs@[k])
                &&& sp.commands@[i as int]->Step_0.id@ == generated_id(command_index@, i + 1)
            } else {
                st.premises@[k] == new_premises@[k].index
            } by {
            assert(slot_ok(ts1, flips, tp_final, cmds0, new_premises@, eqs@, current_depth, command_index@, k));
            assert(st.premises@[k] == tp_final[k]);
            if flipped(flips, k) {
                assert(sp.commands@[count_flips(flips, k) as int] == cmds0[count_flips(flips, k) as int]);
            }
        }
        assert(chained(target.0, target.1, oriented(eqs@, flips)));
        assert(!(forall|k: int| 0 <= k < flips.len() ==> !flips[k]));
        assert(forall|k: int| 0 <= k < n ==> premise_link(ts1, #[trigger] ps[k]) is Ok);
        lemma_elaboration_shape(ts1, c, ps, current_depth, command_index, cmd, new_premises@, eqs@);
    }
    Ok(cmd)
}

/// The subproof shape of [`elaborates`], from what the elaborator's loop establishes.
proof fn lemma_elaboration_shape(
    ts: Seq<TermV>,
    c: Seq<TermId>,
    ps: Seq<Premise>,
    depth: usize,
    id: String,
    cmd: ProofCommand,
    rp: Seq<Premise>,
    eqs: Seq<Link>,
)
    requires
        ({
            let n = ps.len();
            let w = elab_order(ts, c, ps);
            let flips = elab_flips(ts, c, ps);
            let sp = cmd->Subproof_0;
            let st = sp.commands@.last()->Step_0;
            &&& c.len() == 1
            &&& eq_parts(ts, c[0]) is Some
            &&& forall|k: int| 0 <= k < n ==> premise_link(ts, #[trigger] ps[k]) is Ok
            &&& w.len() == n
            &&& rp.len() == n
            &&& forall|k: int| 0 <= k < n ==> #[trigger] w[k] < n && same_premise(rp[k], ps[w[k] as int])
            &&& eqs == reordered(premise_links(ts, ps), w)
            &&& flips.len() <= n
            &&& chained(target_of(ts, c).0, target_of(ts, c).1, oriented(eqs, flips))
            &&& !(forall|k: int| 0 <= k < flips.len() ==> !flips[k])
            &&& cmd is Subproof
            &&& sp.commands@.len() == count_flips(flips, n as int) + 1
            &&& sp.assignment_args@.len() == 0
            &&& sp.variable_args@.len() == 0
            &&& sp.commands@.last() is Step
            &&& is_trans_step(st, id, c)
            &&& st.premises@.len() == n
            &&& forall|k: int|
                0 <= k < n ==> if flipped(flips, k) {
                    let j = count_flips(flips, k);
                    &&& #[trigger] st.premises@[k] == ((depth + 1) as usize, j as usize)
                    &&& j < sp.commands@.len() - 1
                    &&& sp.commands@[j as int] is Step
                    &&& is_symm_step(ts, sp.commands@[j as int]->Step_0, rp[k], eqs[k])
                    &&& sp.commands@[j as int]->Step_0.id@ == generated_id(id@, j + 1)
                } else {
                    st.premises@[k] == rp[k].index
                }
        }),
    ensures
        elaborates(ts, c, ps, depth, id, cmd),
{
    let n = ps.len();
    let w = elab_order(ts, c, ps);
    let flips = elab_flips(ts, c, ps);
    let sp = cmd->Subproof_0;
    let st = sp.commands@.last()->Step_0;
    let links = premise_links(ts, ps);
    assert forall|k: int|
        0 <= k < n implies if flipped(flips, k) {
            let j = count_flips(flips, k);
            &&& #[trigger] st.premises@[k] == ((depth + 1) as usize, j as usize)
            &&& sp.commands@[j as int] is Step
            &&& is_symm_step(ts, sp.commands@[j as int]->Step_0, ps[w[k] as int], links[w[k] as int])
            &&& sp.commands@[j as int]->Step_0.id@ == generated_id(id@, j + 1)
        } else {
            st.premises@[k] == ps[w[k] as int].index
        } by {
        assert(st.premises@[k] == st.premises@[k]);
        assert(w[k] < n && same_premise(rp[k], ps[w[k] as int]));
        assert(eqs[k] == links[w[k] as int]);
    }
}

/// The clause that the `k`-th premise of the final `trans` step of the elaboration `cmd`
/// refers to: the clause of its `symm` step when the premise was read right to left,
/// else that of the premise.
pub open spec fn resolved_clause(
    ts: Seq<TermV>,
    c: Seq<TermId>,
    ps: Seq<Premise>,
    cmd: ProofCommand,
    k: int,
) -> Seq<TermId> {
    let w = elab_order(ts, c, ps);
    let flips = elab_flips(ts, c, ps);
    if flipped(flips, k) {
        cmd->Subproof_0.commands@[count_flips(flips, k) as int]->Step_0.clause@
    } else {
        ps[w[k] as int].clause@
    }
}

/// With no error among `rs`, the equalities are collected in order.
proof fn lemma_collect_all_ok(rs: Seq<Result<Link, CheckerError>>)
    requires
        forall|k: int| 0 <= k < rs.len() ==> rs[k] is Ok,
    ensures
        collect_links(rs) == Ok::<Seq<Link>, CheckerError>(Seq::new(rs.len(), |k: int| ok_link(rs[k]))),
{
    assert(!exists|k: int| is_first_err(rs, k));
}

/// What the elaborator emits checks: the final `trans` step of an elaboration, with each
/// premise resolved to the command it refers to (a `symm` step in place of a premise read
/// right to left), is accepted by the `trans` rule.
pub proof fn lemma_elaboration_checks(
    ts: Seq<TermV>,
    c: Seq<TermId>,
    ps: Seq<Premise>,
    depth: usize,
    id: String,
    cmd: ProofCommand,
    resolved: Seq<Premise>,
)
    requires
        elaborates(ts, c, ps, depth, id, cmd),
        resolved.len() == ps.len(),
        forall|k: int|
            0 <= k < ps.len() ==> (#[trigger] resolved[k]).clause@ == resolved_clause(ts, c, ps, cmd, k),
    ensures
        trans_outcome(ts, c, resolved) == Ok::<(), CheckerError>(()),
{
    let n = ps.len();
    let eqs = premise_links(ts, ps);
    let w = elab_order(ts, c, ps);
    let flips = elab_flips(ts, c, ps);
    let target = target_of(ts, c);
    let re = reordered(eqs, w);
    let rs = resolved.map_values(|p: Premise| premise_link(ts, p));
    let links = Seq::new(n, |k: int| if flipped(flips, k) { orient(re[k], true) } else { re[k] });
    assert forall|k: int| 0 <= k < n implies rs[k] == Ok::<Link, CheckerError>(links[k]) by {
        assert(w[k] < n);
        assert(premise_link(ts, ps[w[k] as int]) is Ok);
        if flipped(flips, k) {
            let sp = cmd->Subproof_0;
            let st = sp.commands@.last()->Step_0;
            assert(st.premises@[k] == st.premises@[k]);
            assert(is_symm_step(
                ts,
                sp.commands@[count_flips(flips, k) as int]->Step_0,
                ps[w[k] as int],
                eqs[w[k] as int],
            ));
        }
    }
    lemma_collect_all_ok(rs);
    assert(Seq::new(rs.len(), |k: int| ok_link(rs[k])) =~= links);
    assert(links.take(flips.len() as int) =~= oriented(re, flips));
    lemma_chained_prefix_accepted(target.0, target.1, links, flips.len() as int);
}

} // verus!
