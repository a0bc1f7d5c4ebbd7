//! Truth semantics of conditions, and the proof that the rewriter never
//! changes what a condition means under any assignment of its atomic tests.

use vstd::prelude::*;

use crate::cond::{
    dist_and, dist_clauses, dist_cross, dist_step, mk_clause, or_flatten, or_simp, simp, simp_list,
    simp_neg, simp_neg_list, Cond,
};

verus! {

broadcast use vstd::seq::group_seq_axioms;

/// The truth value of a condition under an assignment of its atomic tests.
pub open spec fn eval(c: Cond, f: spec_fn(u64) -> bool) -> bool
    decreases c,
{
    match c {
        Cond::True => true,
        Cond::False => false,
        Cond::Base(b) => f(b),
        Cond::Not(x) => !eval(*x, f),
        Cond::And(xs) => eval_all(xs, f),
        Cond::Or(xs) => eval_any(xs, f),
    }
}

/// The truth value of a conjunction of operands; empty means `true`.
pub open spec fn eval_all(xs: Seq<Cond>, f: spec_fn(u64) -> bool) -> bool
    decreases xs,
{
    if xs.len() == 0 {
        true
    } else {
        eval(xs[0], f) && eval_all(xs.drop_first(), f)
    }
}

/// The truth value of a disjunction of operands; empty means `false`.
pub open spec fn eval_any(xs: Seq<Cond>, f: spec_fn(u64) -> bool) -> bool
    decreases xs,
{
    if xs.len() == 0 {
        false
    } else {
        eval(xs[0], f) || eval_any(xs.drop_first(), f)
    }
}

pub proof fn lemma_eval_all_index(xs: Seq<Cond>, f: spec_fn(u64) -> bool)
    ensures
        eval_all(xs, f) <==> (forall|i: int| 0 <= i < xs.len() ==> eval(#[trigger] xs[i], f)),
    decreases xs,
{
    if xs.len() > 0 {
        lemma_eval_all_index(xs.drop_first(), f);
        assert forall|i: int| 0 <= i < xs.len() && eval_all(xs, f) implies eval(
            #[trigger] xs[i],
            f,
        ) by {
            if i > 0 {
                assert(xs.drop_first()[i - 1] == xs[i]);
            }
        }
        if forall|i: int| 0 <= i < xs.len() ==> eval(#[trigger] xs[i], f) {
            assert forall|i: int| 0 <= i < xs.drop_first().len() implies eval(
                #[trigger] xs.drop_first()[i],
                f,
            ) by {
                assert(xs.drop_first()[i] == xs[i + 1]);
            }
        }
    }
}

pub proof fn lemma_eval_any_index(xs: Seq<Cond>, f: spec_fn(u64) -> bool)
    ensures
        eval_any(xs, f) <==> (exists|i: int| 0 <= i < xs.len() && eval(#[trigger] xs[i], f)),
    decreases xs,
{
    if xs.len() > 0 {
        lemma_eval_any_index(xs.drop_first(), f);
        if eval_any(xs, f) {
            if eval(xs[0], f) {
                assert(0 <= 0 < xs.len() && eval(xs[0], f));
            } else {
                let i = choose|i: int|
                    0 <= i < xs.drop_first().len() && eval(#[trigger] xs.drop_first()[i], f);
                assert(xs[i + 1] == xs.drop_first()[i]);
                assert(eval(xs[i + 1], f));
            }
        }
        if exists|i: int| 0 <= i < xs.len() && eval(#[trigger] xs[i], f) {
            let i = choose|i: int| 0 <= i < xs.len() && eval(#[trigger] xs[i], f);
            if i > 0 {
                assert(xs.drop_first()[i - 1] == xs[i]);
                assert(eval(xs.drop_first()[i - 1], f));
            }
        }
    }
}

pub proof fn lemma_eval_all_push(xs: Seq<Cond>, c: Cond, f: spec_fn(u64) -> bool)
    ensures
        eval_all(xs.push(c), f) == (eval_all(xs, f) && eval(c, f)),
{
    lemma_eval_all_index(xs, f);
    lemma_eval_all_index(xs.push(c), f);
    if eval_all(xs, f) && eval(c, f) {
        assert forall|i: int| 0 <= i < xs.push(c).len() implies eval(#[trigger] xs.push(c)[i], f) by {
            if i < xs.len() {
                assert(xs.push(c)[i] == xs[i]);
            } else {
                assert(xs.push(c)[i] == c);
            }
        }
    }
    if eval_all(xs.push(c), f) {
        assert forall|i: int| 0 <= i < xs.len() implies eval(#[trigger] xs[i], f) by {
            assert(xs.push(c)[i] == xs[i]);
            assert(eval(xs.push(c)[i], f));
        }
        assert(xs.push(c)[xs.len() as int] == c);
        assert(eval(c, f));
    }
}

/// Whether some clause of the set is satisfied under `f`.
pub open spec fn sat_clauses(acc: Seq<Seq<Cond>>, f: spec_fn(u64) -> bool) -> bool {
    exists|ci: int| 0 <= ci < acc.len() && eval_all(#[trigger] acc[ci], f)
}

pub proof fn lemma_dist_cross_sat(alts: Seq<Cond>, acc: Seq<Seq<Cond>>, f: spec_fn(u64) -> bool)
    ensures
        sat_clauses(dist_cross(alts, acc), f) == (eval_any(alts, f) && sat_clauses(acc, f)),
    decreases alts.len(),
{
    if alts.len() == 0 {
    } else {
        lemma_dist_cross_sat(alts.drop_first(), acc, f);
        let head = acc.map_values(|cl: Seq<Cond>| cl.push(alts[0]));
        let rest = dist_cross(alts.drop_first(), acc);
        assert(dist_cross(alts, acc) == head + rest);
        // A satisfied clause among the first block means the head alternative
        // holds with some clause of `acc`, and symmetrically for the rest.
        if sat_clauses(head + rest, f) {
            let ci = choose|ci: int| 0 <= ci < (head + rest).len() && eval_all(
                #[trigger] (head + rest)[ci],
                f,
            );
            if ci < head.len() {
                assert((head + rest)[ci] == acc[ci].push(alts[0]));
                lemma_eval_all_push(acc[ci], alts[0], f);
                assert(eval_all(acc[ci], f) && eval(alts[0], f));
                assert(sat_clauses(acc, f));
            } else {
                assert((head + rest)[ci] == rest[ci - head.len()]);
                assert(sat_clauses(rest, f));
            }
        }
        if eval_any(alts, f) && sat_clauses(acc, f) {
            let ci = choose|ci: int| 0 <= ci < acc.len() && eval_all(#[trigger] acc[ci], f);
            if eval(alts[0], f) {
                lemma_eval_all_push(acc[ci], alts[0], f);
                assert((head + rest)[ci] == acc[ci].push(alts[0]));
                assert(eval_all((head + rest)[ci], f));
                assert(sat_clauses(head + rest, f));
            } else {
                assert(eval_any(alts.drop_first(), f));
                assert(sat_clauses(rest, f));
                let cj = choose|cj: int| 0 <= cj < rest.len() && eval_all(#[trigger] rest[cj], f);
                assert((head + rest)[head.len() + cj] == rest[cj]);
                assert(sat_clauses(head + rest, f));
            }
        }
    }
}

pub proof fn lemma_dist_step_sat(acc: Seq<Seq<Cond>>, c: Cond, f: spec_fn(u64) -> bool)
    ensures
        sat_clauses(dist_step(acc, c), f) == (sat_clauses(acc, f) && eval(c, f)),
{
    match c {
        Cond::Or(alts) => {
            lemma_dist_cross_sat(alts, acc, f);
        }
        _ => {
            let stepped = acc.map_values(|cl: Seq<Cond>| cl.push(c));
            if sat_clauses(stepped, f) {
                let ci = choose|ci: int| 0 <= ci < stepped.len() && eval_all(
                    #[trigger] stepped[ci],
                    f,
                );
                assert(stepped[ci] == acc[ci].push(c));
                lemma_eval_all_push(acc[ci], c, f);
                assert(sat_clauses(acc, f));
            }
            if sat_clauses(acc, f) && eval(c, f) {
                let ci = choose|ci: int| 0 <= ci < acc.len() && eval_all(#[trigger] acc[ci], f);
                lemma_eval_all_push(acc[ci], c, f);
                assert(stepped[ci] == acc[ci].push(c));
                assert(eval_all(stepped[ci], f));
                assert(sat_clauses(stepped, f));
            }
        }
    }
}

pub proof fn lemma_dist_clauses_sat(acc: Seq<Seq<Cond>>, xs: Seq<Cond>, f: spec_fn(u64) -> bool)
    ensures
        sat_clauses(dist_clauses(acc, xs), f) == (sat_clauses(acc, f) && eval_all(xs, f)),
    decreases xs.len(),
{
    if xs.len() > 0 {
        lemma_dist_step_sat(acc, xs[0], f);
        lemma_dist_clauses_sat(dist_step(acc, xs[0]), xs.drop_first(), f);
    }
}

/// Distribution preserves the truth value of a conjunction.
pub proof fn lemma_dist_and_eval(xs: Seq<Cond>, f: spec_fn(u64) -> bool)
    ensures
        eval(dist_and(xs), f) == eval_all(xs, f),
{
    if xs.len() == 0 {
    } else {
        let acc0 = seq![Seq::<Cond>::empty()];
        assert(sat_clauses(acc0, f)) by {
            assert(eval_all(acc0[0], f));
        }
        lemma_dist_clauses_sat(acc0, xs, f);
        let clauses = dist_clauses(acc0, xs);
        let ds = clauses.map_values(|cl: Seq<Cond>| mk_clause(cl));
        assert forall|ci: int| 0 <= ci < ds.len() implies eval(#[trigger] ds[ci], f) == eval_all(
            clauses[ci],
            f,
        ) by {
            let cl = clauses[ci];
            if cl.len() == 1 {
                assert(mk_clause(cl) == cl[0]);
                assert(eval_all(cl, f) == eval(cl[0], f)) by {
                    reveal_with_fuel(eval_all, 2);
                    assert(cl.drop_first().len() == 0);
                }
            } else {
                assert(mk_clause(cl) == Cond::And(cl));
            }
        }
        if ds.len() == 1 {
            assert(eval(dist_and(xs), f) == eval_all(clauses[0], f));
            assert(sat_clauses(clauses, f) == eval_all(clauses[0], f)) by {
                if eval_all(clauses[0], f) {
                    assert(0 <= 0 < clauses.len() && eval_all(clauses[0], f));
                }
            }
        } else {
            assert(dist_and(xs) == Cond::Or(ds));
            lemma_eval_any_index(ds, f);
            assert(eval_any(ds, f) == sat_clauses(clauses, f)) by {
                if eval_any(ds, f) {
                    let i = choose|i: int| 0 <= i < ds.len() && eval(#[trigger] ds[i], f);
                    assert(eval_all(clauses[i], f));
                }
                if sat_clauses(clauses, f) {
                    let ci = choose|ci: int| 0 <= ci < clauses.len() && eval_all(
                        #[trigger] clauses[ci],
                        f,
                    );
                    assert(eval(ds[ci], f));
                }
            }
        }
    }
}

pub proof fn lemma_or_flatten_eval(xs: Seq<Cond>, f: spec_fn(u64) -> bool)
    ensures
        eval_any(or_flatten(xs), f) == eval_any(xs, f),
    decreases xs.len(),
{
    if xs.len() > 0 {
        lemma_or_flatten_eval(xs.drop_first(), f);
        let rest = or_flatten(xs.drop_first());
        assert(eval_any(xs, f) == (eval(xs[0], f) || eval_any(xs.drop_first(), f)));
        match xs[0] {
            Cond::Or(inner) => {
                lemma_eval_any_concat(inner, rest, f);
                assert(or_flatten(xs) == inner + rest);
                assert(eval(xs[0], f) == eval_any(inner, f));
                assert(eval_any(or_flatten(xs), f) == (eval_any(inner, f) || eval_any(rest, f)));
            }
            _ => {
                lemma_eval_any_concat(seq![xs[0]], rest, f);
                assert(or_flatten(xs) == seq![xs[0]] + rest);
                assert(eval_any(seq![xs[0]], f) == eval(xs[0], f)) by {
                    reveal_with_fuel(eval_any, 2);
                    assert(seq![xs[0]][0] == xs[0]);
                    assert(seq![xs[0]].drop_first().len() == 0);
                }
                assert(eval_any(or_flatten(xs), f) == (eval(xs[0], f) || eval_any(rest, f)));
            }
        }
    }
}

pub proof fn lemma_eval_any_concat(a: Seq<Cond>, b: Seq<Cond>, f: spec_fn(u64) -> bool)
    ensures
        eval_any(a + b, f) == (eval_any(a, f) || eval_any(b, f)),
    decreases a.len(),
{
    if a.len() == 0 {
        assert(a + b =~= b);
    } else {
        assert((a + b).drop_first() =~= a.drop_first() + b);
        assert((a + b)[0] == a[0]);
        lemma_eval_any_concat(a.drop_first(), b, f);
    }
}

/// Flattening and collapsing preserves the truth value of a disjunction.
pub proof fn lemma_or_simp_eval(xs: Seq<Cond>, f: spec_fn(u64) -> bool)
    ensures
        eval(or_simp(xs), f) == eval_any(xs, f),
{
    lemma_or_flatten_eval(xs, f);
    let flat = or_flatten(xs);
    lemma_eval_any_index(flat, f);
    if flat.len() == 0 {
    } else if exists|i: int| 0 <= i < flat.len() && flat[i] is True {
        let i = choose|i: int| 0 <= i < flat.len() && flat[i] is True;
        assert(eval(flat[i], f));
    } else if flat.len() == 1 {
        assert(eval_any(flat, f) == eval(flat[0], f)) by {
            assert(flat.drop_first().len() == 0);
        }
    }
}

/// Simplification never changes what a condition means: under every
/// assignment of the atomic tests, the simplified condition has the same
/// truth value, and the simplified negation the opposite one.
pub proof fn lemma_simp_eval(c: Cond, f: spec_fn(u64) -> bool)
    ensures
        eval(simp(c), f) == eval(c, f),
        eval(simp_neg(c), f) == !eval(c, f),
    decreases c,
{
    match c {
        Cond::Not(x) => {
            lemma_simp_eval(*x, f);
        }
        Cond::And(xs) => {
            lemma_simp_eval_list(xs, f);
            crate::cond::lemma_simp_list_index(xs);
            crate::cond::lemma_simp_neg_list_index(xs);
            lemma_dist_and_eval(simp_list(xs), f);
            lemma_or_simp_eval(simp_neg_list(xs), f);
            lemma_eval_all_index(xs, f);
            lemma_eval_all_index(simp_list(xs), f);
            lemma_eval_any_index(simp_neg_list(xs), f);
            assert(eval_all(simp_list(xs), f) == eval_all(xs, f)) by {
                if eval_all(simp_list(xs), f) {
                    assert forall|i: int| 0 <= i < xs.len() implies eval(#[trigger] xs[i], f) by {
                        assert(eval(simp_list(xs)[i], f));
                        assert(eval(simp(xs[i]), f) == eval(xs[i], f));
                    }
                }
                if eval_all(xs, f) {
                    assert forall|i: int| 0 <= i < simp_list(xs).len() implies eval(
                        #[trigger] simp_list(xs)[i],
                        f,
                    ) by {
                        assert(eval(xs[i], f));
                        assert(eval(simp(xs[i]), f) == eval(xs[i], f));
                    }
                }
            }
            // One failing operand makes the conjunction false and its
            // simplified negation true.
            assert(eval_any(simp_neg_list(xs), f) == !eval_all(xs, f)) by {
                if eval_any(simp_neg_list(xs), f) {
                    let i = choose|i: int|
                        0 <= i < simp_neg_list(xs).len() && eval(#[trigger] simp_neg_list(xs)[i], f);
                    assert(simp_neg_list(xs)[i] == simp_neg(xs[i]));
                    assert(eval(simp_neg(xs[i]), f) == !eval(xs[i], f));
                    assert(!eval(xs[i], f));
                }
                if !eval_all(xs, f) {
                    let i = choose|i: int| 0 <= i < xs.len() && !eval(#[trigger] xs[i], f);
                    assert(eval(simp_neg(xs[i]), f) == !eval(xs[i], f));
                    assert(eval(simp_neg_list(xs)[i], f));
                }
            }
        }
        Cond::Or(xs) => {
            lemma_simp_eval_list(xs, f);
            crate::cond::lemma_simp_list_index(xs);
            crate::cond::lemma_simp_neg_list_index(xs);
            lemma_or_simp_eval(simp_list(xs), f);
            lemma_dist_and_eval(simp_neg_list(xs), f);
            lemma_eval_any_index(xs, f);
            lemma_eval_any_index(simp_list(xs), f);
            lemma_eval_all_index(simp_neg_list(xs), f);
            assert(eval_any(simp_list(xs), f) == eval_any(xs, f)) by {
                if eval_any(simp_list(xs), f) {
                    let i = choose|i: int|
                        0 <= i < simp_list(xs).len() && eval(#[trigger] simp_list(xs)[i], f);
                    assert(simp_list(xs)[i] == simp(xs[i]));
                    assert(eval(simp(xs[i]), f) == eval(xs[i], f));
                    assert(eval(xs[i], f));
                }
                if eval_any(xs, f) {
                    let i = choose|i: int| 0 <= i < xs.len() && eval(#[trigger] xs[i], f);
                    assert(eval(simp(xs[i]), f) == eval(xs[i], f));
                    assert(eval(simp_list(xs)[i], f));
                }
            }
            assert(eval_all(simp_neg_list(xs), f) == !eval_any(xs, f)) by {
                if eval_any(xs, f) {
                    let i = choose|i: int| 0 <= i < xs.len() && eval(#[trigger] xs[i], f);
                    assert(eval(simp_neg(xs[i]), f) == !eval(xs[i], f));
                    assert(!eval(simp_neg_list(xs)[i], f));
                }
                if !eval_any(xs, f) {
                    assert forall|i: int| 0 <= i < simp_neg_list(xs).len() implies eval(
                        #[trigger] simp_neg_list(xs)[i],
                        f,
                    ) by {
                        assert(!eval(xs[i], f));
                        assert(eval(simp_neg(xs[i]), f) == !eval(xs[i], f));
                    }
                }
            }
        }
        _ => {}
    }
}

pub proof fn lemma_simp_eval_list(xs: Seq<Cond>, f: spec_fn(u64) -> bool)
    ensures
        forall|i: int|
            0 <= i < xs.len() ==> eval(simp(#[trigger] xs[i]), f) == eval(xs[i], f) && eval(
                simp_neg(xs[i]),
                f,
            ) == !eval(xs[i], f),
    decreases xs,
{
    if xs.len() > 0 {
        lemma_simp_eval(xs[0], f);
        lemma_simp_eval_list(xs.drop_first(), f);
        assert forall|i: int|
            0 <= i < xs.len() implies eval(simp(#[trigger] xs[i]), f) == eval(xs[i], f) && eval(
            simp_neg(xs[i]),
            f,
        ) == !eval(xs[i], f) by {
            if i > 0 {
                assert(xs.drop_first()[i - 1] == xs[i]);
            }
        }
    }
}

/// De Morgan correctness: the simplified negation of a conjunction evaluates
/// exactly as the disjunction of the negated operands, under every
/// assignment of the atomic tests.
pub proof fn lemma_de_morgan(a: Cond, b: Cond, f: spec_fn(u64) -> bool)
    ensures
        eval(simp(Cond::Not(Box::new(Cond::And(seq![a, b])))), f) == eval(
            Cond::Or(seq![Cond::Not(Box::new(a)), Cond::Not(Box::new(b))]),
            f,
        ),
{
    reveal_with_fuel(eval, 3);
    lemma_simp_eval(Cond::Not(Box::new(Cond::And(seq![a, b]))), f);
    lemma_eval_all_index(seq![a, b], f);
    lemma_eval_any_index(seq![Cond::Not(Box::new(a)), Cond::Not(Box::new(b))], f);
    assert(eval_all(seq![a, b], f) == (eval(a, f) && eval(b, f))) by {
        assert(seq![a, b][0] == a && seq![a, b][1] == b);
    }
    let negs = seq![Cond::Not(Box::new(a)), Cond::Not(Box::new(b))];
    assert(eval_any(negs, f) == (!eval(a, f) || !eval(b, f))) by {
        assert(negs[0] == Cond::Not(Box::new(a)) && negs[1] == Cond::Not(Box::new(b)));
        if !eval(a, f) {
            assert(eval(negs[0], f));
        }
        if !eval(b, f) {
            assert(eval(negs[1], f));
        }
    }
}

} // verus!
