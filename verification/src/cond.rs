//! The condition algebra: a reference-counted boolean expression tree over
//! opaque atomic tests, and its rewriting into disjunctive normal form with
//! De Morgan laws applied. The specification-level rewriter `simp` is the
//! exact model of the executable `simplify`.

use vstd::prelude::*;

verus! {

broadcast use vstd::std_specs::vec::group_vec_axioms, vstd::seq::group_seq_axioms;

/// Relies on `Rc::clone`: the returned pointer shares the allocation of the
/// argument, so it carries the very same value.
#[verifier::external_body]
pub(crate) fn rc_clone(c: &Condition) -> (r: Condition)
    ensures
        r == *c,
{
    std::rc::Rc::clone(c)
}

/// Mathematical model of a boolean condition tree.
#[verifier::ext_equal]
pub enum Cond {
    True,
    False,
    Base(u64),
    Not(Box<Cond>),
    And(Seq<Cond>),
    Or(Seq<Cond>),
}

/// An immutable, structurally shared boolean-expression tree over opaque
/// atomic tests. Subtrees are shared by reference counting and never mutated
/// in place; simplification always builds new nodes.
#[derive(Debug)]
pub enum Condition_ {
    True,
    False,
    Base(u64),
    Not(Condition),
    And(Vec<Condition>),
    Or(Vec<Condition>),
}

pub type Condition = std::rc::Rc<Condition_>;

/// The abstract condition a concrete tree stands for.
pub open spec fn cview(c: Condition_) -> Cond
    decreases c,
{
    match c {
        Condition_::True => Cond::True,
        Condition_::False => Cond::False,
        Condition_::Base(b) => Cond::Base(b),
        Condition_::Not(inner) => Cond::Not(Box::new(cview(*inner))),
        Condition_::And(cs) => Cond::And(cview_seq(cs@)),
        Condition_::Or(cs) => Cond::Or(cview_seq(cs@)),
    }
}

/// The abstract conditions an operand list stands for, in order.
pub open spec fn cview_seq(cs: Seq<Condition>) -> Seq<Cond>
    decreases cs,
{
    if cs.len() == 0 {
        Seq::empty()
    } else {
        seq![cview(*cs[0])] + cview_seq(cs.drop_first())
    }
}

/// One distribution step: extend every clause with `c`, or, when `c` is a
/// disjunction, with each of its alternatives in turn.
pub open spec fn dist_step(acc: Seq<Seq<Cond>>, c: Cond) -> Seq<Seq<Cond>> {
    match c {
        Cond::Or(alts) => dist_cross(alts, acc),
        _ => acc.map_values(|cl: Seq<Cond>| cl.push(c)),
    }
}

/// Every clause of `acc` extended with every alternative of `alts`,
/// grouped by alternative.
pub open spec fn dist_cross(alts: Seq<Cond>, acc: Seq<Seq<Cond>>) -> Seq<Seq<Cond>>
    decreases alts.len(),
{
    if alts.len() == 0 {
        Seq::empty()
    } else {
        acc.map_values(|cl: Seq<Cond>| cl.push(alts[0])) + dist_cross(alts.drop_first(), acc)
    }
}

/// The conjunctive clauses of the cartesian product of the operands `cs`,
/// starting from the clause set `acc`.
pub open spec fn dist_clauses(acc: Seq<Seq<Cond>>, cs: Seq<Cond>) -> Seq<Seq<Cond>>
    decreases cs.len(),
{
    if cs.len() == 0 {
        acc
    } else {
        dist_clauses(dist_step(acc, cs[0]), cs.drop_first())
    }
}

/// A clause as a condition: a sole literal stays bare, anything else is a
/// conjunction.
pub open spec fn mk_clause(cl: Seq<Cond>) -> Cond {
    if cl.len() == 1 {
        cl[0]
    } else {
        Cond::And(cl)
    }
}

/// A conjunction of already-simplified operands, distributed over any operand
/// that is itself a disjunction.
pub open spec fn dist_and(cs: Seq<Cond>) -> Cond {
    if cs.len() == 0 {
        Cond::True
    } else {
        let ds = dist_clauses(seq![Seq::empty()], cs).map_values(|cl: Seq<Cond>| mk_clause(cl));
        if ds.len() == 1 {
            ds[0]
        } else {
            Cond::Or(ds)
        }
    }
}

/// Already-simplified operands of a disjunction with any direct disjunction
/// operand flattened into the list.
pub open spec fn or_flatten(cs: Seq<Cond>) -> Seq<Cond>
    decreases cs.len(),
{
    if cs.len() == 0 {
        Seq::empty()
    } else {
        let rest = or_flatten(cs.drop_first());
        match cs[0] {
            Cond::Or(inner) => inner + rest,
            _ => seq![cs[0]] + rest,
        }
    }
}

/// A disjunction of already-simplified operands: flattened, collapsed to
/// `False` when empty and to `True` when any operand is `True`, and unwrapped
/// when a single operand remains.
pub open spec fn or_simp(cs: Seq<Cond>) -> Cond {
    let flat = or_flatten(cs);
    if flat.len() == 0 {
        Cond::False
    } else if exists|i: int| 0 <= i < flat.len() && flat[i] is True {
        Cond::True
    } else if flat.len() == 1 {
        flat[0]
    } else {
        Cond::Or(flat)
    }
}

/// Disjunctive normal form with De Morgan rewriting, applied innermost-out.
pub open spec fn simp(c: Cond) -> Cond
    decreases c,
{
    match c {
        Cond::True => Cond::True,
        Cond::False => Cond::False,
        Cond::Base(b) => Cond::Base(b),
        Cond::Not(x) => simp_neg(*x),
        Cond::And(xs) => dist_and(simp_list(xs)),
        Cond::Or(xs) => or_simp(simp_list(xs)),
    }
}

/// The simplified form of the negation of `c`: constants flip, a double
/// negation unwraps, and a negated conjunction or disjunction is rewritten by
/// De Morgan's laws.
pub open spec fn simp_neg(c: Cond) -> Cond
    decreases c,
{
    match c {
        Cond::True => Cond::False,
        Cond::False => Cond::True,
        Cond::Base(b) => Cond::Not(Box::new(Cond::Base(b))),
        Cond::Not(x) => simp(*x),
        Cond::And(xs) => or_simp(simp_neg_list(xs)),
        Cond::Or(xs) => dist_and(simp_neg_list(xs)),
    }
}

/// Each operand simplified, in order.
pub open spec fn simp_list(xs: Seq<Cond>) -> Seq<Cond>
    decreases xs,
{
    if xs.len() == 0 {
        Seq::empty()
    } else {
        seq![simp(xs[0])] + simp_list(xs.drop_first())
    }
}

/// Each operand's negation simplified, in order.
pub open spec fn simp_neg_list(xs: Seq<Cond>) -> Seq<Cond>
    decreases xs,
{
    if xs.len() == 0 {
        Seq::empty()
    } else {
        seq![simp_neg(xs[0])] + simp_neg_list(xs.drop_first())
    }
}

pub proof fn lemma_cview_seq_index(cs: Seq<Condition>)
    ensures
        cview_seq(cs).len() == cs.len(),
        forall|i: int| 0 <= i < cs.len() ==> cview_seq(cs)[i] == cview(*cs[i]),
    decreases cs.len(),
{
    if cs.len() > 0 {
        lemma_cview_seq_index(cs.drop_first());
    }
}

pub proof fn lemma_cview_seq_push(cs: Seq<Condition>, c: Condition)
    ensures
        cview_seq(cs.push(c)) == cview_seq(cs).push(cview(*c)),
    decreases cs.len(),
{
    if cs.len() == 0 {
        assert(cs.push(c).drop_first() =~= Seq::<Condition>::empty());
        assert(cs.push(c)[0] == c);
        assert(cview_seq(cs.push(c)) == seq![cview(*c)] + cview_seq(Seq::<Condition>::empty()));
        assert(cview_seq(cs.push(c)) =~= cview_seq(cs).push(cview(*c)));
    } else {
        assert(cs.push(c).drop_first() =~= cs.drop_first().push(c));
        assert(cs.push(c)[0] == cs[0]);
        lemma_cview_seq_push(cs.drop_first(), c);
        assert(cview_seq(cs.push(c)) == seq![cview(*cs[0])] + cview_seq(cs.drop_first()).push(
            cview(*c),
        ));
        assert(cview_seq(cs.push(c)) =~= cview_seq(cs).push(cview(*c)));
    }
}

pub proof fn lemma_simp_list_index(xs: Seq<Cond>)
    ensures
        simp_list(xs).len() == xs.len(),
        forall|i: int| 0 <= i < xs.len() ==> simp_list(xs)[i] == simp(xs[i]),
    decreases xs.len(),
{
    if xs.len() > 0 {
        lemma_simp_list_index(xs.drop_first());
    }
}

pub proof fn lemma_simp_neg_list_index(xs: Seq<Cond>)
    ensures
        simp_neg_list(xs).len() == xs.len(),
        forall|i: int| 0 <= i < xs.len() ==> simp_neg_list(xs)[i] == simp_neg(xs[i]),
    decreases xs.len(),
{
    if xs.len() > 0 {
        lemma_simp_neg_list_index(xs.drop_first());
    }
}

/// The clause lists a vector of concrete clauses stands for.
pub open spec fn clauses_view(s: Seq<Vec<Condition>>) -> Seq<Seq<Cond>> {
    s.map_values(|cl: Vec<Condition>| cview_seq(cl@))
}

pub proof fn lemma_dist_clauses_snoc(acc: Seq<Seq<Cond>>, cs: Seq<Cond>, c: Cond)
    ensures
        dist_clauses(acc, cs.push(c)) == dist_step(dist_clauses(acc, cs), c),
    decreases cs.len(),
{
    reveal_with_fuel(dist_clauses, 3);
    if cs.len() == 0 {
        assert(cs.push(c).drop_first() =~= Seq::<Cond>::empty());
        assert(cs.push(c)[0] == c);
    } else {
        assert(cs.push(c).drop_first() =~= cs.drop_first().push(c));
        assert(cs.push(c)[0] == cs[0]);
        lemma_dist_clauses_snoc(dist_step(acc, cs[0]), cs.drop_first(), c);
    }
}

pub proof fn lemma_dist_cross_snoc(alts: Seq<Cond>, a: Cond, acc: Seq<Seq<Cond>>)
    ensures
        dist_cross(alts.push(a), acc) == dist_cross(alts, acc) + acc.map_values(
            |cl: Seq<Cond>| cl.push(a),
        ),
    decreases alts.len(),
{
    reveal_with_fuel(dist_cross, 3);
    if alts.len() == 0 {
        assert(alts.push(a).drop_first() =~= Seq::<Cond>::empty());
        assert(alts.push(a)[0] == a);
        assert(dist_cross(alts.push(a), acc) =~~= dist_cross(alts, acc) + acc.map_values(
            |cl: Seq<Cond>| cl.push(a),
        ));
    } else {
        assert(alts.push(a).drop_first() =~= alts.drop_first().push(a));
        assert(alts.push(a)[0] == alts[0]);
        lemma_dist_cross_snoc(alts.drop_first(), a, acc);
        assert(dist_cross(alts.push(a), acc) =~~= dist_cross(alts, acc) + acc.map_values(
            |cl: Seq<Cond>| cl.push(a),
        ));
    }
}

pub proof fn lemma_or_flatten_snoc(cs: Seq<Cond>, c: Cond)
    ensures
        or_flatten(cs.push(c)) == or_flatten(cs) + (match c {
            Cond::Or(inner) => inner,
            _ => seq![c],
        }),
    decreases cs.len(),
{
    reveal_with_fuel(or_flatten, 3);
    if cs.len() == 0 {
        assert(cs.push(c).drop_first() =~= Seq::<Cond>::empty());
        assert(cs.push(c)[0] == c);
        assert(or_flatten(cs.push(c)) =~= or_flatten(cs) + (match c {
            Cond::Or(inner) => inner,
            _ => seq![c],
        }));
    } else {
        assert(cs.push(c).drop_first() =~= cs.drop_first().push(c));
        assert(cs.push(c)[0] == cs[0]);
        lemma_or_flatten_snoc(cs.drop_first(), c);
        assert(or_flatten(cs.push(c)) =~= or_flatten(cs) + (match c {
            Cond::Or(inner) => inner,
            _ => seq![c],
        }));
    }
}

/// A fresh list holding the same shared condition nodes.
fn clone_clause(v: &Vec<Condition>) -> (r: Vec<Condition>)
    ensures
        r@.len() == v@.len(),
        forall|i: int| 0 <= i < v@.len() ==> r@[i] == v@[i],
{
    let mut out: Vec<Condition> = Vec::new();
    let mut i: usize = 0;
    while i < v.len()
        invariant
            i <= v@.len(),
            out@.len() == i,
            forall|j: int| 0 <= j < i ==> out@[j] == v@[j],
        decreases v@.len() - i,
    {
        out.push(rc_clone(&v[i]));
        i = i + 1;
    }
    out
}

/// The conjunction of already-simplified operands, distributed over any
/// disjunction among them into a disjunction of conjunctive clauses.
fn distribute_and(entries: Vec<Condition>) -> (r: Condition)
    ensures
        cview(*r) == dist_and(cview_seq(entries@)),
{
    proof {
        lemma_cview_seq_index(entries@);
    }
    if entries.len() == 0 {
        return std::rc::Rc::new(Condition_::True);
    }
    let ghost evs = cview_seq(entries@);
    let ghost acc0 = seq![Seq::<Cond>::empty()];
    let mut result: Vec<Vec<Condition>> = Vec::new();
    result.push(Vec::new());
    proof {
        assert(cview_seq(result@[0]@) =~= Seq::<Cond>::empty());
        assert(clauses_view(result@) =~= acc0);
    }
    let mut i: usize = 0;
    while i < entries.len()
        invariant
            i <= entries@.len(),
            evs == cview_seq(entries@),
            evs.len() == entries@.len(),
            forall|j: int| 0 <= j < entries@.len() ==> evs[j] == cview(*entries@[j]),
            clauses_view(result@) == dist_clauses(acc0, evs.subrange(0, i as int)),
        decreases entries@.len() - i,
    {
        let ghost pre = evs.subrange(0, i as int);
        let ghost cur = evs[i as int];
        let ghost base = clauses_view(result@);
        proof {
            assert(evs.subrange(0, i + 1 as int) =~= pre.push(cur));
            lemma_dist_clauses_snoc(acc0, pre, cur);
        }
        match &*entries[i] {
            Condition_::Or(alts) => {
                proof {
                    lemma_cview_seq_index(alts@);
                    assert(cur == Cond::Or(cview_seq(alts@)));
                }
                let ghost avs = cview_seq(alts@);
                let mut new_result: Vec<Vec<Condition>> = Vec::new();
                let mut a: usize = 0;
                while a < alts.len()
                    invariant
                        a <= alts@.len(),
                        avs == cview_seq(alts@),
                        avs.len() == alts@.len(),
                        forall|j: int| 0 <= j < alts@.len() ==> avs[j] == cview(*alts@[j]),
                        base == clauses_view(result@),
                        clauses_view(new_result@) == dist_cross(avs.subrange(0, a as int), base),
                    decreases alts@.len() - a,
                {
                    let ghost across = avs.subrange(0, a as int);
                    let ghost av = avs[a as int];
                    proof {
                        assert(avs.subrange(0, a + 1 as int) =~= across.push(av));
                        lemma_dist_cross_snoc(across, av, base);
                    }
                    let ghost mid = clauses_view(new_result@);
                    let mut j: usize = 0;
                    while j < result.len()
                        invariant
                            j <= result@.len(),
                            a < alts@.len(),
                            av == cview(*alts@[a as int]),
                            base == clauses_view(result@),
                            base.len() == result@.len(),
                            mid == dist_cross(across, base),
                            new_result@.len() == mid.len() + j,
                            forall|t: int|
                                0 <= t < mid.len() ==> #[trigger] cview_seq(new_result@[t]@)
                                    == mid[t],
                            forall|t: int|
                                mid.len() <= t < mid.len() + j ==> #[trigger] cview_seq(
                                    new_result@[t]@,
                                ) == base[t - mid.len()].push(av),
                        decreases result@.len() - j,
                    {
                        let mut new_clause = clone_clause(&result[j]);
                        new_clause.push(rc_clone(&alts[a]));
                        proof {
                            assert(new_clause@ =~= result@[j as int]@.push(alts@[a as int]));
                            lemma_cview_seq_push(result@[j as int]@, alts@[a as int]);
                            assert(base[j as int] == cview_seq(result@[j as int]@));
                            assert(cview_seq(new_clause@) == base[j as int].push(av));
                        }
                        new_result.push(new_clause);
                        j = j + 1;
                    }
                    proof {
                        assert(clauses_view(new_result@).len() == new_result@.len());
                        assert(clauses_view(new_result@) =~= mid + base.map_values(
                            |cl: Seq<Cond>| cl.push(av),
                        ));
                        assert(clauses_view(new_result@) == dist_cross(
                            avs.subrange(0, a + 1 as int),
                            base,
                        ));
                    }
                    a = a + 1;
                }
                result = new_result;
                proof {
                    assert(avs.subrange(0, alts@.len() as int) =~= avs);
                    assert(dist_step(base, cur) == dist_cross(avs, base));
                    assert(clauses_view(result@) == dist_clauses(acc0, evs.subrange(0, i + 1 as int)));
                }
            }
            _other => {
                proof {
                    assert(!(cur is Or));
                    assert(dist_step(base, cur) == base.map_values(|cl: Seq<Cond>| cl.push(cur)));
                }
                let mut updated: Vec<Vec<Condition>> = Vec::new();
                let mut j: usize = 0;
                while j < result.len()
                    invariant
                        j <= result@.len(),
                        i < entries@.len(),
                        cur == cview(*entries@[i as int]),
                        base == clauses_view(result@),
                        base.len() == result@.len(),
                        updated@.len() == j,
                        forall|t: int|
                            0 <= t < j ==> #[trigger] cview_seq(updated@[t]@) == base[t].push(cur),
                    decreases result@.len() - j,
                {
                    let mut new_clause = clone_clause(&result[j]);
                    new_clause.push(rc_clone(&entries[i]));
                    proof {
                        assert(new_clause@ =~= result@[j as int]@.push(entries@[i as int]));
                        lemma_cview_seq_push(result@[j as int]@, entries@[i as int]);
                        assert(base[j as int] == cview_seq(result@[j as int]@));
                        assert(cview_seq(new_clause@) == base[j as int].push(cur));
                    }
                    updated.push(new_clause);
                    j = j + 1;
                }
                result = updated;
                proof {
                    assert(clauses_view(result@) =~= base.map_values(|cl: Seq<Cond>| cl.push(cur)));
                    assert(clauses_view(result@) == dist_clauses(acc0, evs.subrange(0, i + 1 as int)));
                }
            }
        }
        i = i + 1;
    }
    proof {
        assert(evs.subrange(0, entries@.len() as int) =~= evs);
    }
    let ghost clauses = dist_clauses(acc0, evs);
    // Turn each clause into a conjunction, a sole literal staying bare.
    let mut disjuncts: Vec<Condition> = Vec::new();
    let mut k: usize = 0;
    while k < result.len()
        invariant
            k <= result@.len(),
            clauses == clauses_view(result@),
            clauses.len() == result@.len(),
            disjuncts@.len() == k,
            forall|t: int|
                0 <= t < k ==> cview(*#[trigger] disjuncts@[t]) == mk_clause(clauses[t]),
        decreases result@.len() - k,
    {
        let clause = clone_clause(&result[k]);
        let ghost cl = clauses[k as int];
        proof {
            assert(clause@ =~= result@[k as int]@);
            assert(cl == cview_seq(result@[k as int]@));
            assert(cview_seq(clause@) == cl);
            lemma_cview_seq_index(clause@);
        }
        let d: Condition = if clause.len() == 1 {
            rc_clone(&clause[0])
        } else {
            std::rc::Rc::new(Condition_::And(clause))
        };
        assert(cview(*d) == mk_clause(cl));
        disjuncts.push(d);
        k = k + 1;
    }
    proof {
        lemma_cview_seq_index(disjuncts@);
        assert(cview_seq(disjuncts@) =~= clauses.map_values(|cl2: Seq<Cond>| mk_clause(cl2)));
    }
    if disjuncts.len() == 1 {
        rc_clone(&disjuncts[0])
    } else {
        std::rc::Rc::new(Condition_::Or(disjuncts))
    }
}


/// The disjunction of already-simplified operands: nested disjunctions are
/// flattened one level, an empty list collapses to `False`, a `True` operand
/// collapses the whole disjunction to `True`, and a sole operand stays bare.
fn or_build(entries: Vec<Condition>) -> (r: Condition)
    ensures
        cview(*r) == or_simp(cview_seq(entries@)),
{
    proof {
        lemma_cview_seq_index(entries@);
    }
    let ghost evs = cview_seq(entries@);
    let mut result: Vec<Condition> = Vec::new();
    let mut i: usize = 0;
    while i < entries.len()
        invariant
            i <= entries@.len(),
            evs == cview_seq(entries@),
            evs.len() == entries@.len(),
            forall|j: int| 0 <= j < entries@.len() ==> evs[j] == cview(*entries@[j]),
            cview_seq(result@) == or_flatten(evs.subrange(0, i as int)),
        decreases entries@.len() - i,
    {
        let ghost pre = evs.subrange(0, i as int);
        let ghost cur = evs[i as int];
        proof {
            assert(evs.subrange(0, i + 1 as int) =~= pre.push(cur));
            lemma_or_flatten_snoc(pre, cur);
        }
        match &*entries[i] {
            Condition_::Or(list) => {
                proof {
                    lemma_cview_seq_index(list@);
                    assert(cur == Cond::Or(cview_seq(list@)));
                }
                let ghost lvs = cview_seq(list@);
                let mut t: usize = 0;
                while t < list.len()
                    invariant
                        t <= list@.len(),
                        lvs == cview_seq(list@),
                        lvs.len() == list@.len(),
                        forall|q: int| 0 <= q < list@.len() ==> lvs[q] == cview(*list@[q]),
                        cview_seq(result@) == or_flatten(pre) + lvs.subrange(0, t as int),
                    decreases list@.len() - t,
                {
                    let ghost before = result@;
                    result.push(rc_clone(&list[t]));
                    proof {
                        lemma_cview_seq_push(before, list@[t as int]);
                        assert(lvs.subrange(0, t + 1 as int) =~= lvs.subrange(0, t as int).push(
                            lvs[t as int],
                        ));
                        assert(cview_seq(result@) =~= or_flatten(pre) + lvs.subrange(
                            0,
                            t + 1 as int,
                        ));
                    }
                    t = t + 1;
                }
                proof {
                    assert(lvs.subrange(0, list@.len() as int) =~= lvs);
                    assert(cview_seq(result@) == or_flatten(evs.subrange(0, i + 1 as int)));
                }
            }
            _other => {
                let ghost before = result@;
                result.push(rc_clone(&entries[i]));
                proof {
                    assert(!(cur is Or));
                    lemma_cview_seq_push(before, entries@[i as int]);
                    assert(cview_seq(result@) =~= or_flatten(pre) + seq![cur]);
                    assert(cview_seq(result@) == or_flatten(evs.subrange(0, i + 1 as int)));
                }
            }
        }
        i = i + 1;
    }
    proof {
        assert(evs.subrange(0, entries@.len() as int) =~= evs);
        lemma_cview_seq_index(result@);
    }
    let ghost flat = or_flatten(evs);
    if result.len() == 0 {
        // No alternative at all is an unsatisfiable disjunction.
        return std::rc::Rc::new(Condition_::False);
    }
    let mut any_true = false;
    let mut t: usize = 0;
    while t < result.len()
        invariant
            t <= result@.len(),
            flat == cview_seq(result@),
            flat.len() == result@.len(),
            forall|q: int| 0 <= q < result@.len() ==> flat[q] == cview(*result@[q]),
            any_true == exists|q: int| 0 <= q < t && flat[q] is True,
        decreases result@.len() - t,
    {
        match &*result[t] {
            Condition_::True => {
                proof {
                    assert(flat[t as int] is True);
                }
                any_true = true;
            }
            _other => {
                proof {
                    assert(!(flat[t as int] is True));
                    assert((exists|q: int| 0 <= q < t + 1 && flat[q] is True) == (exists|q: int|
                        0 <= q < t && flat[q] is True));
                }
            }
        }
        t = t + 1;
    }
    if any_true {
        std::rc::Rc::new(Condition_::True)
    } else if result.len() == 1 {
        rc_clone(&result[0])
    } else {
        std::rc::Rc::new(Condition_::Or(result))
    }
}

/// Rewrite `c` into disjunctive normal form, innermost-out.
fn simplify_cond(c: &Condition) -> (r: Condition)
    ensures
        cview(*r) == simp(cview(**c)),
    decreases **c,
{
    match &**c {
        Condition_::True => rc_clone(c),
        Condition_::False => rc_clone(c),
        Condition_::Base(_) => rc_clone(c),
        Condition_::Not(inner) => simplify_neg(inner),
        Condition_::And(xs) => distribute_and(simplify_all(xs)),
        Condition_::Or(xs) => or_build(simplify_all(xs)),
    }
}

/// Rewrite the negation of `c` into disjunctive normal form: constants flip,
/// a double negation unwraps, and De Morgan's laws push the negation inward.
fn simplify_neg(c: &Condition) -> (r: Condition)
    ensures
        cview(*r) == simp_neg(cview(**c)),
    decreases **c,
{
    match &**c {
        Condition_::True => std::rc::Rc::new(Condition_::False),
        Condition_::False => std::rc::Rc::new(Condition_::True),
        Condition_::Base(_) => std::rc::Rc::new(Condition_::Not(rc_clone(c))),
        Condition_::Not(inner) => simplify_cond(inner),
        Condition_::And(xs) => or_build(simplify_neg_all(xs)),
        Condition_::Or(xs) => distribute_and(simplify_neg_all(xs)),
    }
}

/// Each operand simplified, in order.
fn simplify_all(xs: &Vec<Condition>) -> (r: Vec<Condition>)
    ensures
        cview_seq(r@) == simp_list(cview_seq(xs@)),
    decreases xs@,
{
    proof {
        lemma_cview_seq_index(xs@);
        lemma_simp_list_index(cview_seq(xs@));
    }
    let mut out: Vec<Condition> = Vec::new();
    let mut i: usize = 0;
    while i < xs.len()
        invariant
            i <= xs@.len(),
            out@.len() == i,
            forall|j: int|
                0 <= j < i ==> cview(*#[trigger] out@[j]) == simp(cview_seq(xs@)[j]),
        decreases xs@.len() - i,
    {
        let v = simplify_cond(&xs[i]);
        proof {
            lemma_cview_seq_index(xs@);
            lemma_simp_list_index(cview_seq(xs@));
        }
        out.push(v);
        i = i + 1;
    }
    proof {
        lemma_cview_seq_index(out@);
        lemma_cview_seq_index(xs@);
        lemma_simp_list_index(cview_seq(xs@));
        assert(cview_seq(out@) =~= simp_list(cview_seq(xs@)));
    }
    out
}

/// Each operand's negation simplified, in order.
fn simplify_neg_all(xs: &Vec<Condition>) -> (r: Vec<Condition>)
    ensures
        cview_seq(r@) == simp_neg_list(cview_seq(xs@)),
    decreases xs@,
{
    proof {
        lemma_cview_seq_index(xs@);
        lemma_simp_neg_list_index(cview_seq(xs@));
    }
    let mut out: Vec<Condition> = Vec::new();
    let mut i: usize = 0;
    while i < xs.len()
        invariant
            i <= xs@.len(),
            out@.len() == i,
            forall|j: int|
                0 <= j < i ==> cview(*#[trigger] out@[j]) == simp_neg(cview_seq(xs@)[j]),
        decreases xs@.len() - i,
    {
        let v = simplify_neg(&xs[i]);
        proof {
            lemma_cview_seq_index(xs@);
            lemma_simp_neg_list_index(cview_seq(xs@));
        }
        out.push(v);
        i = i + 1;
    }
    proof {
        lemma_cview_seq_index(out@);
        lemma_cview_seq_index(xs@);
        lemma_simp_neg_list_index(cview_seq(xs@));
        assert(cview_seq(out@) =~= simp_neg_list(cview_seq(xs@)));
    }
    out
}

/// The operations the structuring engine needs of a guard predicate.
pub trait Predicate: Sized {
    /// The abstract condition this value stands for.
    spec fn model(&self) -> Cond;

    /// Rewrite into disjunctive normal form.
    fn simplify(&self) -> (r: Self)
        ensures
            r.model() == simp(self.model()),
    ;

    /// Whether this is the literal `True`.
    fn is_true(&self) -> (r: bool)
        ensures
            r == (self.model() is True),
    ;

    /// The canonical always-true condition.
    fn true_value() -> (r: Self)
        ensures
            r.model() == Cond::True,
    ;

    /// The canonical always-false condition.
    fn false_value() -> (r: Self)
        ensures
            r.model() == Cond::False,
    ;
}

impl Predicate for Condition {
    open spec fn model(&self) -> Cond {
        cview(**self)
    }

    fn simplify(&self) -> (r: Self) {
        simplify_cond(self)
    }

    fn is_true(&self) -> (r: bool) {
        match &**self {
            Condition_::True => true,
            _ => false,
        }
    }

    fn true_value() -> (r: Self) {
        std::rc::Rc::new(Condition_::True)
    }

    fn false_value() -> (r: Self) {
        std::rc::Rc::new(Condition_::False)
    }
}

} // verus!
