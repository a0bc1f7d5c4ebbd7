//! Structural laws of the condition rewriter: its results always have
//! disjunctive-normal shape, and rewriting twice changes nothing beyond the
//! first pass.

use vstd::prelude::*;

use crate::cond::{
    dist_and, dist_clauses, dist_cross, dist_step, mk_clause, or_flatten, or_simp, simp, simp_list,
    simp_neg, simp_neg_list, Cond,
};

verus! {

broadcast use vstd::seq::group_seq_axioms;

/// The shape every simplified condition has: no negation of anything but an
/// atomic test, and no disjunction directly inside a disjunction.
pub open spec fn is_dnf(c: Cond) -> bool
    decreases c,
{
    match c {
        Cond::Not(x) => *x is Base,
        Cond::And(xs) => is_dnf_list(xs),
        Cond::Or(xs) => is_dnf_list(xs) && (forall|i: int|
            0 <= i < xs.len() ==> !(#[trigger] xs[i] is Or)),
        _ => true,
    }
}

pub open spec fn is_dnf_list(xs: Seq<Cond>) -> bool
    decreases xs,
{
    if xs.len() == 0 {
        true
    } else {
        is_dnf(xs[0]) && is_dnf_list(xs.drop_first())
    }
}

/// The exact image of the simplifier: a condition the simplifier maps to
/// itself. Conjunctions and disjunctions keep at least two operands, no
/// operand is a disjunction, and no disjunction operand is `True`.
pub open spec fn canon(c: Cond) -> bool
    decreases c,
{
    match c {
        Cond::True => true,
        Cond::False => true,
        Cond::Base(_) => true,
        Cond::Not(x) => *x is Base,
        Cond::And(xs) => xs.len() >= 2 && canon_list(xs) && (forall|i: int|
            0 <= i < xs.len() ==> !(#[trigger] xs[i] is Or)),
        Cond::Or(xs) => xs.len() >= 2 && canon_list(xs) && (forall|i: int|
            0 <= i < xs.len() ==> !(#[trigger] xs[i] is Or) && !(xs[i] is True)),
    }
}

pub open spec fn canon_list(xs: Seq<Cond>) -> bool
    decreases xs,
{
    if xs.len() == 0 {
        true
    } else {
        canon(xs[0]) && canon_list(xs.drop_first())
    }
}

pub proof fn lemma_canon_list_index(xs: Seq<Cond>)
    ensures
        canon_list(xs) <==> (forall|i: int| 0 <= i < xs.len() ==> canon(#[trigger] xs[i])),
    decreases xs,
{
    if xs.len() > 0 {
        lemma_canon_list_index(xs.drop_first());
        assert forall|i: int| 0 <= i < xs.len() && canon_list(xs) implies canon(#[trigger] xs[i]) by {
            if i > 0 {
                assert(xs.drop_first()[i - 1] == xs[i]);
            }
        }
        if forall|i: int| 0 <= i < xs.len() ==> canon(#[trigger] xs[i]) {
            assert forall|i: int| 0 <= i < xs.drop_first().len() implies canon(
                #[trigger] xs.drop_first()[i],
            ) by {
                assert(xs.drop_first()[i] == xs[i + 1]);
            }
        }
    }
}

pub proof fn lemma_dnf_list_index(xs: Seq<Cond>)
    ensures
        is_dnf_list(xs) <==> (forall|i: int| 0 <= i < xs.len() ==> is_dnf(#[trigger] xs[i])),
    decreases xs,
{
    if xs.len() > 0 {
        lemma_dnf_list_index(xs.drop_first());
        assert forall|i: int| 0 <= i < xs.len() && is_dnf_list(xs) implies is_dnf(
            #[trigger] xs[i],
        ) by {
            if i > 0 {
                assert(xs.drop_first()[i - 1] == xs[i]);
            }
        }
        if forall|i: int| 0 <= i < xs.len() ==> is_dnf(#[trigger] xs[i]) {
            assert forall|i: int| 0 <= i < xs.drop_first().len() implies is_dnf(
                #[trigger] xs.drop_first()[i],
            ) by {
                assert(xs.drop_first()[i] == xs[i + 1]);
            }
        }
    }
}

/// Everything in the simplifier's exact image has the documented shape.
pub proof fn lemma_canon_implies_dnf(c: Cond)
    requires
        canon(c),
    ensures
        is_dnf(c),
    decreases c,
{
    match c {
        Cond::And(xs) => {
            lemma_canon_list_index(xs);
            lemma_dnf_list_index(xs);
            assert forall|i: int| 0 <= i < xs.len() implies is_dnf(#[trigger] xs[i]) by {
                lemma_canon_implies_dnf(xs[i]);
            }
        }
        Cond::Or(xs) => {
            lemma_canon_list_index(xs);
            lemma_dnf_list_index(xs);
            assert forall|i: int| 0 <= i < xs.len() implies is_dnf(#[trigger] xs[i]) by {
                lemma_canon_implies_dnf(xs[i]);
            }
        }
        _ => {}
    }
}

/// What may stand inside a conjunctive clause: a canonical condition that is
/// not itself a disjunction.
pub open spec fn lit_ok(c: Cond) -> bool {
    canon(c) && !(c is Or)
}

/// Every clause has exactly `k` members, all fit to stand in a clause.
pub open spec fn good_clauses(acc: Seq<Seq<Cond>>, k: int) -> bool {
    forall|ci: int|
        0 <= ci < acc.len() ==> (#[trigger] acc[ci]).len() == k && (forall|j: int|
            0 <= j < acc[ci].len() ==> lit_ok(#[trigger] acc[ci][j]))
}

pub proof fn lemma_dist_cross_good(alts: Seq<Cond>, acc: Seq<Seq<Cond>>, k: int)
    requires
        good_clauses(acc, k),
        forall|i: int| 0 <= i < alts.len() ==> lit_ok(#[trigger] alts[i]),
    ensures
        good_clauses(dist_cross(alts, acc), k + 1),
        alts.len() >= 1 ==> dist_cross(alts, acc).len() >= acc.len(),
    decreases alts.len(),
{
    if alts.len() > 0 {
        assert forall|i: int| 0 <= i < alts.drop_first().len() implies lit_ok(
            #[trigger] alts.drop_first()[i],
        ) by {
            assert(alts.drop_first()[i] == alts[i + 1]);
        }
        lemma_dist_cross_good(alts.drop_first(), acc, k);
        let head = acc.map_values(|cl: Seq<Cond>| cl.push(alts[0]));
        let rest = dist_cross(alts.drop_first(), acc);
        assert forall|ci: int| 0 <= ci < (head + rest).len() implies (#[trigger] (head + rest)[ci]).len()
            == k + 1 && (forall|j: int|
            0 <= j < (head + rest)[ci].len() ==> lit_ok(#[trigger] (head + rest)[ci][j])) by {
            if ci < head.len() {
                assert((head + rest)[ci] == acc[ci].push(alts[0]));
                assert(acc[ci].len() == k);
                assert forall|j: int| 0 <= j < (head + rest)[ci].len() implies lit_ok(
                    #[trigger] (head + rest)[ci][j],
                ) by {
                    if j < k {
                        assert(acc[ci].push(alts[0])[j] == acc[ci][j]);
                    } else {
                        assert(acc[ci].push(alts[0])[j] == alts[0]);
                    }
                }
            } else {
                assert((head + rest)[ci] == rest[ci - head.len()]);
            }
        }
    }
}

pub proof fn lemma_dist_clauses_good(acc: Seq<Seq<Cond>>, xs: Seq<Cond>, k: int)
    requires
        good_clauses(acc, k),
        acc.len() >= 1,
        forall|i: int| 0 <= i < xs.len() ==> canon(#[trigger] xs[i]),
    ensures
        good_clauses(dist_clauses(acc, xs), k + xs.len()),
        dist_clauses(acc, xs).len() >= 1,
    decreases xs.len(),
{
    if xs.len() > 0 {
        let stepped = dist_step(acc, xs[0]);
        match xs[0] {
            Cond::Or(alts) => {
                assert(canon(xs[0]));
                lemma_canon_list_index(alts);
                assert forall|i: int| 0 <= i < alts.len() implies lit_ok(#[trigger] alts[i]) by {
                    assert(canon(alts[i]) && !(alts[i] is Or));
                }
                lemma_dist_cross_good(alts, acc, k);
            }
            _ => {
                assert forall|ci: int| 0 <= ci < stepped.len() implies (#[trigger] stepped[ci]).len()
                    == k + 1 && (forall|j: int|
                    0 <= j < stepped[ci].len() ==> lit_ok(#[trigger] stepped[ci][j])) by {
                    assert(stepped[ci] == acc[ci].push(xs[0]));
                    assert forall|j: int| 0 <= j < stepped[ci].len() implies lit_ok(
                        #[trigger] stepped[ci][j],
                    ) by {
                        if j < k {
                            assert(acc[ci].push(xs[0])[j] == acc[ci][j]);
                        } else {
                            assert(acc[ci].push(xs[0])[j] == xs[0]);
                        }
                    }
                }
            }
        }
        assert forall|i: int| 0 <= i < xs.drop_first().len() implies canon(
            #[trigger] xs.drop_first()[i],
        ) by {
            assert(xs.drop_first()[i] == xs[i + 1]);
        }
        lemma_dist_clauses_good(stepped, xs.drop_first(), k + 1);
    }
}

/// Distributing a sole disjunction over an empty clause gives back its own
/// alternatives as singleton clauses.
pub proof fn lemma_dist_cross_singleton(alts: Seq<Cond>)
    ensures
        dist_cross(alts, seq![Seq::<Cond>::empty()]).map_values(|cl: Seq<Cond>| mk_clause(cl))
            =~= alts,
    decreases alts.len(),
{
    if alts.len() > 0 {
        lemma_dist_cross_singleton(alts.drop_first());
        let acc = seq![Seq::<Cond>::empty()];
        let head = acc.map_values(|cl: Seq<Cond>| cl.push(alts[0]));
        let rest = dist_cross(alts.drop_first(), acc);
        assert(head[0] == Seq::<Cond>::empty().push(alts[0]));
        assert(head[0].len() == 1);
        assert(mk_clause(head[0]) == alts[0]);
        let lhs = dist_cross(alts, acc).map_values(|cl: Seq<Cond>| mk_clause(cl));
        assert(dist_cross(alts, acc) == head + rest);
        assert forall|i: int| 0 <= i < lhs.len() implies lhs[i] == alts[i] by {
            if i == 0 {
                assert((head + rest)[0] == head[0]);
            } else {
                assert((head + rest)[i] == rest[i - 1]);
                assert(rest.map_values(|cl: Seq<Cond>| mk_clause(cl))[i - 1] == alts.drop_first()[i
                    - 1]);
            }
        }
        assert(lhs =~= alts);
    }
}

/// A conjunction of canonical operands distributes to a canonical result.
pub proof fn lemma_dist_and_canon(xs: Seq<Cond>)
    requires
        forall|i: int| 0 <= i < xs.len() ==> canon(#[trigger] xs[i]),
    ensures
        canon(dist_and(xs)),
{
    if xs.len() == 0 {
        return ;
    }
    let acc0 = seq![Seq::<Cond>::empty()];
    assert(good_clauses(acc0, 0)) by {
        assert(acc0[0].len() == 0);
    }
    lemma_dist_clauses_good(acc0, xs, 0);
    let clauses = dist_clauses(acc0, xs);
    let ds = clauses.map_values(|cl: Seq<Cond>| mk_clause(cl));
    if xs.len() == 1 {
        assert(clauses == dist_step(acc0, xs[0])) by {
            reveal_with_fuel(dist_clauses, 3);
            assert(xs.drop_first().len() == 0);
        }
        match xs[0] {
            Cond::Or(alts) => {
                lemma_dist_cross_singleton(alts);
                assert(ds =~= alts);
                if ds.len() == 1 {
                    assert(canon(xs[0]));
                    assert(false);
                } else {
                    assert(dist_and(xs) == Cond::Or(ds));
                    assert(Cond::Or(ds) =~~= xs[0]);
                }
            }
            _ => {
                let stepped = acc0.map_values(|cl: Seq<Cond>| cl.push(xs[0]));
                assert(stepped[0] == Seq::<Cond>::empty().push(xs[0]));
                assert(ds[0] == mk_clause(stepped[0]));
                assert(stepped[0].len() == 1 && stepped[0][0] == xs[0]);
                assert(ds.len() == 1);
                assert(dist_and(xs) == xs[0]);
            }
        }
    } else {
        // Every clause then has at least two members, so it becomes a
        // conjunction, which is neither `True` nor a disjunction.
        assert forall|ci: int| 0 <= ci < ds.len() implies canon(#[trigger] ds[ci]) && !(ds[ci] is Or)
            && !(ds[ci] is True) by {
            let cl = clauses[ci];
            assert(cl.len() == xs.len());
            assert(ds[ci] == mk_clause(cl));
            assert(ds[ci] == Cond::And(cl));
            lemma_canon_list_index(cl);
            assert forall|j: int| 0 <= j < cl.len() implies canon(#[trigger] cl[j]) by {
                assert(lit_ok(cl[j]));
            }
            assert forall|j: int| 0 <= j < cl.len() implies !(#[trigger] cl[j] is Or) by {
                assert(lit_ok(cl[j]));
            }
        }
        if ds.len() == 1 {
            assert(dist_and(xs) == ds[0]);
        } else {
            assert(dist_and(xs) == Cond::Or(ds));
            lemma_canon_list_index(ds);
        }
    }
}

pub proof fn lemma_or_flatten_good(xs: Seq<Cond>)
    requires
        forall|i: int| 0 <= i < xs.len() ==> canon(#[trigger] xs[i]),
    ensures
        forall|j: int| 0 <= j < or_flatten(xs).len() ==> lit_ok(#[trigger] or_flatten(xs)[j]),
    decreases xs.len(),
{
    if xs.len() > 0 {
        assert forall|i: int| 0 <= i < xs.drop_first().len() implies canon(
            #[trigger] xs.drop_first()[i],
        ) by {
            assert(xs.drop_first()[i] == xs[i + 1]);
        }
        lemma_or_flatten_good(xs.drop_first());
        let rest = or_flatten(xs.drop_first());
        match xs[0] {
            Cond::Or(inner) => {
                lemma_canon_list_index(inner);
                assert forall|j: int| 0 <= j < (inner + rest).len() implies lit_ok(
                    #[trigger] (inner + rest)[j],
                ) by {
                    if j < inner.len() {
                        assert((inner + rest)[j] == inner[j]);
                    } else {
                        assert((inner + rest)[j] == rest[j - inner.len()]);
                    }
                }
            }
            _ => {
                assert forall|j: int| 0 <= j < (seq![xs[0]] + rest).len() implies lit_ok(
                    #[trigger] (seq![xs[0]] + rest)[j],
                ) by {
                    if j >= 1 {
                        assert((seq![xs[0]] + rest)[j] == rest[j - 1]);
                    }
                }
            }
        }
    }
}

/// A disjunction of canonical operands flattens to a canonical result.
pub proof fn lemma_or_simp_canon(xs: Seq<Cond>)
    requires
        forall|i: int| 0 <= i < xs.len() ==> canon(#[trigger] xs[i]),
    ensures
        canon(or_simp(xs)),
{
    lemma_or_flatten_good(xs);
    let flat = or_flatten(xs);
    if flat.len() == 0 {
    } else if exists|i: int| 0 <= i < flat.len() && flat[i] is True {
    } else if flat.len() == 1 {
        assert(lit_ok(flat[0]));
    } else {
        lemma_canon_list_index(flat);
        assert forall|j: int| 0 <= j < flat.len() implies canon(#[trigger] flat[j]) by {
            assert(lit_ok(flat[j]));
        }
    }
}

/// The simplifier always lands in its exact image.
pub proof fn lemma_simp_canon(c: Cond)
    ensures
        canon(simp(c)),
        canon(simp_neg(c)),
    decreases c,
{
    match c {
        Cond::Not(x) => {
            lemma_simp_canon(*x);
        }
        Cond::And(xs) => {
            lemma_simp_canon_list(xs);
            crate::cond::lemma_simp_list_index(xs);
            crate::cond::lemma_simp_neg_list_index(xs);
            lemma_dist_and_canon(simp_list(xs));
            lemma_or_simp_canon(simp_neg_list(xs));
        }
        Cond::Or(xs) => {
            lemma_simp_canon_list(xs);
            crate::cond::lemma_simp_list_index(xs);
            crate::cond::lemma_simp_neg_list_index(xs);
            lemma_or_simp_canon(simp_list(xs));
            lemma_dist_and_canon(simp_neg_list(xs));
        }
        _ => {}
    }
}

pub proof fn lemma_simp_canon_list(xs: Seq<Cond>)
    ensures
        forall|i: int| 0 <= i < xs.len() ==> canon(simp(#[trigger] xs[i])) && canon(
            simp_neg(xs[i]),
        ),
    decreases xs,
{
    if xs.len() > 0 {
        lemma_simp_canon(xs[0]);
        lemma_simp_canon_list(xs.drop_first());
        assert forall|i: int| 0 <= i < xs.len() implies canon(simp(#[trigger] xs[i])) && canon(
            simp_neg(xs[i]),
        ) by {
            if i > 0 {
                assert(xs.drop_first()[i - 1] == xs[i]);
            }
        }
    }
}

/// When no operand is a disjunction, distribution leaves a clause set alone.
pub proof fn lemma_dist_clauses_plain(cl: Seq<Cond>, xs: Seq<Cond>)
    requires
        forall|i: int| 0 <= i < xs.len() ==> !(#[trigger] xs[i] is Or),
    ensures
        dist_clauses(seq![cl], xs) =~= seq![cl + xs],
    decreases xs.len(),
{
    if xs.len() == 0 {
        assert(cl + xs =~= cl);
    } else {
        let stepped = dist_step(seq![cl], xs[0]);
        assert(stepped =~= seq![cl.push(xs[0])]) by {
            assert(stepped[0] == cl.push(xs[0]));
        }
        assert forall|i: int| 0 <= i < xs.drop_first().len() implies !(
        #[trigger] xs.drop_first()[i] is Or) by {
            assert(xs.drop_first()[i] == xs[i + 1]);
        }
        lemma_dist_clauses_plain(cl.push(xs[0]), xs.drop_first());
        assert(cl.push(xs[0]) + xs.drop_first() =~= cl + xs);
    }
}

/// When no operand is a disjunction, flattening leaves the list alone.
pub proof fn lemma_or_flatten_plain(xs: Seq<Cond>)
    requires
        forall|i: int| 0 <= i < xs.len() ==> !(#[trigger] xs[i] is Or),
    ensures
        or_flatten(xs) =~= xs,
    decreases xs.len(),
{
    if xs.len() > 0 {
        assert forall|i: int| 0 <= i < xs.drop_first().len() implies !(
        #[trigger] xs.drop_first()[i] is Or) by {
            assert(xs.drop_first()[i] == xs[i + 1]);
        }
        lemma_or_flatten_plain(xs.drop_first());
    }
}

/// The simplifier maps each member of its exact image to itself.
pub proof fn lemma_canon_fixed(c: Cond)
    requires
        canon(c),
    ensures
        simp(c) == c,
    decreases c,
{
    match c {
        Cond::Not(x) => {}
        Cond::And(xs) => {
            lemma_canon_list_index(xs);
            lemma_canon_fixed_list(xs);
            crate::cond::lemma_simp_list_index(xs);
            assert(simp_list(xs) =~= xs);
            lemma_dist_clauses_plain(Seq::<Cond>::empty(), xs);
            let clauses = dist_clauses(seq![Seq::<Cond>::empty()], xs);
            assert(clauses == seq![Seq::<Cond>::empty() + xs]);
            let ds = clauses.map_values(|cl: Seq<Cond>| mk_clause(cl));
            assert(Seq::<Cond>::empty() + xs =~= xs);
            assert(ds[0] == mk_clause(xs));
            assert(ds.len() == 1);
            assert(simp(c) == mk_clause(xs));
        }
        Cond::Or(xs) => {
            lemma_canon_list_index(xs);
            lemma_canon_fixed_list(xs);
            crate::cond::lemma_simp_list_index(xs);
            assert(simp_list(xs) =~= xs);
            lemma_or_flatten_plain(xs);
            assert(forall|i: int| 0 <= i < xs.len() ==> !(#[trigger] xs[i] is True));
            assert(simp(c) == or_simp(xs));
            assert(or_flatten(xs) == xs);
            assert(!(exists|i: int| 0 <= i < xs.len() && xs[i] is True));
            assert(simp(c) == Cond::Or(xs));
        }
        _ => {}
    }
}

pub proof fn lemma_canon_fixed_list(xs: Seq<Cond>)
    requires
        forall|i: int| 0 <= i < xs.len() ==> canon(#[trigger] xs[i]),
    ensures
        forall|i: int| 0 <= i < xs.len() ==> simp(#[trigger] xs[i]) == xs[i],
    decreases xs,
{
    if xs.len() > 0 {
        lemma_canon_fixed(xs[0]);
        assert forall|i: int| 0 <= i < xs.drop_first().len() implies canon(
            #[trigger] xs.drop_first()[i],
        ) by {
            assert(xs.drop_first()[i] == xs[i + 1]);
        }
        lemma_canon_fixed_list(xs.drop_first());
        assert forall|i: int| 0 <= i < xs.len() implies simp(#[trigger] xs[i]) == xs[i] by {
            if i > 0 {
                assert(xs.drop_first()[i - 1] == xs[i]);
            }
        }
    }
}

/// Simplification is idempotent: a second pass changes nothing.
pub proof fn lemma_simplify_idempotent(c: Cond)
    ensures
        simp(simp(c)) == simp(c),
{
    lemma_simp_canon(c);
    lemma_canon_fixed(simp(c));
}

/// Every simplified condition is in disjunctive normal form: it holds no
/// negation of anything but an atomic test, and no disjunction directly
/// inside a disjunction.
pub proof fn lemma_simplify_dnf(c: Cond)
    ensures
        is_dnf(simp(c)),
{
    lemma_simp_canon(c);
    lemma_canon_implies_dnf(simp(c));
}

} // verus!
