use vstd::prelude::*;
use crate::combinations::{
    spec_combinations, is_subsequence, lemma_combinations_sound, lemma_combinations_complete,
    lemma_subsequence_elements,
};
use crate::dimacs::{
    neg_clause, rest_lits, at_least_clause, at_least_clauses, at_least_result, at_most_clauses,
};

verus! {

/// Truth of one literal under an assignment: entry `v - 1` of `asg` gives the
/// value of the variable with identifier `v`.
pub open spec fn lit_holds(asg: Seq<bool>, lit: i32) -> bool {
    if lit > 0 {
        lit as int <= asg.len() && asg[lit as int - 1]
    } else if lit < 0 {
        -(lit as int) <= asg.len() && !asg[-(lit as int) - 1]
    } else {
        false
    }
}

/// A clause holds when some literal of it holds.
pub open spec fn clause_holds(asg: Seq<bool>, c: Seq<i32>) -> bool {
    exists|i: int| 0 <= i < c.len() && lit_holds(asg, #[trigger] c[i])
}

/// A formula holds when every clause holds.
pub open spec fn formula_holds(asg: Seq<bool>, cs: Seq<Seq<i32>>) -> bool {
    forall|i: int| 0 <= i < cs.len() ==> clause_holds(asg, #[trigger] cs[i])
}

/// How many of the given variables the assignment makes true.
pub open spec fn count_true(asg: Seq<bool>, ids: Seq<i32>) -> int
    decreases ids.len(),
{
    if ids.len() == 0 {
        0
    } else {
        (if lit_holds(asg, ids[0]) {
            1int
        } else {
            0int
        }) + count_true(asg, ids.drop_first())
    }
}

/// Every identifier is positive and within the assignment's length.
pub open spec fn ids_in_range(ids: Seq<i32>, n: int) -> bool {
    forall|i: int| 0 <= i < ids.len() ==> 1 <= #[trigger] ids[i] && ids[i] <= n
}

/// No identifier occurs twice.
pub open spec fn distinct_ids(ids: Seq<i32>) -> bool {
    forall|i: int, j: int| 0 <= i < j < ids.len() ==> ids[i] != ids[j]
}

/// The assignment makes every one of the given variables true.
pub open spec fn all_true(asg: Seq<bool>, ids: Seq<i32>) -> bool {
    forall|i: int| 0 <= i < ids.len() ==> lit_holds(asg, #[trigger] ids[i])
}

/// The subsequence of variables the assignment makes true.
pub open spec fn trues(asg: Seq<bool>, ids: Seq<i32>) -> Seq<i32>
    decreases ids.len(),
{
    if ids.len() == 0 {
        Seq::<i32>::empty()
    } else if lit_holds(asg, ids[0]) {
        seq![ids[0]] + trues(asg, ids.drop_first())
    } else {
        trues(asg, ids.drop_first())
    }
}

/// A formula split in two holds exactly when both halves hold.
pub proof fn lemma_formula_concat(asg: Seq<bool>, a: Seq<Seq<i32>>, b: Seq<Seq<i32>>)
    ensures
        formula_holds(asg, a + b) <==> (formula_holds(asg, a) && formula_holds(asg, b)),
{
    if formula_holds(asg, a + b) {
        assert forall|i: int| 0 <= i < a.len() implies clause_holds(asg, #[trigger] a[i]) by {
            assert((a + b)[i] == a[i]);
        }
        assert forall|i: int| 0 <= i < b.len() implies clause_holds(asg, #[trigger] b[i]) by {
            assert((a + b)[a.len() + i] == b[i]);
        }
    }
    if formula_holds(asg, a) && formula_holds(asg, b) {
        assert forall|i: int| 0 <= i < (a + b).len() implies clause_holds(
            asg,
            #[trigger] (a + b)[i],
        ) by {
            if i < a.len() {
                assert((a + b)[i] == a[i]);
            } else {
                assert((a + b)[i] == b[i - a.len()]);
            }
        }
    }
}

/// The count of true variables is between zero and the variable count.
pub proof fn lemma_count_bounds(asg: Seq<bool>, ids: Seq<i32>)
    ensures
        0 <= count_true(asg, ids) <= ids.len(),
    decreases ids.len(),
{
    if ids.len() > 0 {
        lemma_count_bounds(asg, ids.drop_first());
    }
}

/// The true variables form a subsequence whose length is the count, which is
/// all true and contains every true variable.
proof fn lemma_trues_props(asg: Seq<bool>, ids: Seq<i32>)
    ensures
        is_subsequence(trues(asg, ids), ids),
        trues(asg, ids).len() == count_true(asg, ids),
        all_true(asg, trues(asg, ids)),
        forall|x: i32| ids.contains(x) && lit_holds(asg, x) ==> trues(asg, ids).contains(x),
    decreases ids.len(),
{
    let t = trues(asg, ids);
    if ids.len() == 0 {
    } else {
        let tail = ids.drop_first();
        lemma_trues_props(asg, tail);
        let tt = trues(asg, tail);
        if lit_holds(asg, ids[0]) {
            assert(t == seq![ids[0]] + tt);
            assert(t[0] == ids[0]);
            assert(t.drop_first() =~= tt);
            assert forall|i: int| 0 <= i < t.len() implies lit_holds(asg, #[trigger] t[i]) by {
                if i > 0 {
                    assert(t[i] == tt[i - 1]);
                }
            }
        }
        assert forall|x: i32| ids.contains(x) && lit_holds(asg, x) implies t.contains(x) by {
            let i = choose|i: int| 0 <= i < ids.len() && ids[i] == x;
            if i == 0 {
                if lit_holds(asg, ids[0]) {
                    assert(t[0] == x);
                }
            } else {
                assert(tail[i - 1] == x);
                assert(tail.contains(x));
                let j = choose|j: int| 0 <= j < tt.len() && tt[j] == x;
                if lit_holds(asg, ids[0]) {
                    assert(t[j + 1] == x);
                } else {
                    assert(t[j] == x);
                }
            }
        }
    }
}

/// A prefix of a subsequence is itself a subsequence.
proof fn lemma_subsequence_take(c: Seq<i32>, s: Seq<i32>, m: int)
    requires
        is_subsequence(c, s),
        0 <= m <= c.len(),
    ensures
        is_subsequence(c.take(m), s),
    decreases s.len(),
{
    if m == 0 {
        assert(c.take(0) =~= Seq::<i32>::empty());
    } else {
        if c[0] == s[0] && is_subsequence(c.drop_first(), s.drop_first()) {
            lemma_subsequence_take(c.drop_first(), s.drop_first(), m - 1);
            assert(c.take(m)[0] == s[0]);
            assert(c.take(m).drop_first() =~= c.drop_first().take(m - 1));
        } else {
            lemma_subsequence_take(c, s.drop_first(), m);
        }
    }
}

/// When the count of true variables reaches `m`, some all-true subsequence of
/// length `m` exists; this hands one back.
proof fn lemma_true_subseq(asg: Seq<bool>, ids: Seq<i32>, m: int) -> (c: Seq<i32>)
    requires
        0 <= m <= count_true(asg, ids),
    ensures
        is_subsequence(c, ids),
        c.len() == m,
        all_true(asg, c),
{
    lemma_trues_props(asg, ids);
    let t = trues(asg, ids);
    lemma_subsequence_take(t, ids, m);
    assert forall|i: int| 0 <= i < m implies lit_holds(asg, #[trigger] t.take(m)[i]) by {
        assert(t.take(m)[i] == t[i]);
    }
    t.take(m)
}

/// An all-true subsequence bounds the count of true variables from below.
proof fn lemma_all_true_count(asg: Seq<bool>, c: Seq<i32>, ids: Seq<i32>)
    requires
        is_subsequence(c, ids),
        all_true(asg, c),
    ensures
        count_true(asg, ids) >= c.len(),
    decreases ids.len(),
{
    lemma_count_bounds(asg, ids);
    if c.len() == 0 {
    } else if ids.len() == 0 {
    } else {
        if c[0] == ids[0] && is_subsequence(c.drop_first(), ids.drop_first()) {
            assert forall|i: int| 0 <= i < c.drop_first().len() implies lit_holds(
                asg,
                #[trigger] c.drop_first()[i],
            ) by {
                assert(c.drop_first()[i] == c[i + 1]);
            }
            lemma_all_true_count(asg, c.drop_first(), ids.drop_first());
            assert(lit_holds(asg, ids[0]));
        } else {
            lemma_all_true_count(asg, c, ids.drop_first());
            lemma_count_bounds(asg, ids.drop_first());
        }
    }
}

/// Over distinct variables, if an all-true subsequence contains every true
/// variable, its length is exactly the count of true variables.
proof fn lemma_exact_true_count(asg: Seq<bool>, c: Seq<i32>, ids: Seq<i32>)
    requires
        distinct_ids(ids),
        is_subsequence(c, ids),
        all_true(asg, c),
        forall|x: i32| ids.contains(x) && lit_holds(asg, x) ==> c.contains(x),
    ensures
        count_true(asg, ids) == c.len(),
    decreases ids.len(),
{
    if ids.len() == 0 {
    } else {
        let tail = ids.drop_first();
        assert forall|x: i32| #[trigger] tail.contains(x) implies ids.contains(x) && ids[0] != x by {
            let j = choose|j: int| 0 <= j < tail.len() && tail[j] == x;
            assert(ids[j + 1] == x);
        }
        if c.len() > 0 && c[0] == ids[0] && is_subsequence(c.drop_first(), tail) {
            let ct = c.drop_first();
            assert(lit_holds(asg, ids[0]));
            assert forall|i: int| 0 <= i < ct.len() implies lit_holds(asg, #[trigger] ct[i]) by {
                assert(ct[i] == c[i + 1]);
            }
            assert forall|x: i32| tail.contains(x) && lit_holds(asg, x) implies ct.contains(x) by {
                assert(ids.contains(x));
                assert(c.contains(x));
                let j = choose|j: int| 0 <= j < c.len() && c[j] == x;
                if j == 0 {
                    assert(ids[0] == x);
                    assert(false);
                } else {
                    assert(ct[j - 1] == x);
                }
            }
            lemma_exact_true_count(asg, ct, tail);
        } else {
            assert(is_subsequence(c, tail));
            if lit_holds(asg, ids[0]) {
                assert(ids.contains(ids[0]));
                assert(c.contains(ids[0]));
                lemma_subsequence_elements(c, tail);
                assert(tail.contains(ids[0]));
                assert(false);
            }
            assert forall|x: i32| tail.contains(x) && lit_holds(asg, x) implies c.contains(x) by {
                assert(ids.contains(x));
            }
            lemma_exact_true_count(asg, c, tail);
        }
    }
}

/// Elements of `rest_lits` are exactly the variables outside the subset.
proof fn lemma_rest_lits_elems(ids: Seq<i32>, combo: Seq<i32>)
    ensures
        forall|x: i32|
            #[trigger] rest_lits(ids, combo).contains(x) ==> ids.contains(x) && !combo.contains(x),
        forall|x: i32|
            ids.contains(x) && !combo.contains(x) ==> rest_lits(ids, combo).contains(x),
    decreases ids.len(),
{
    let r = rest_lits(ids, combo);
    if ids.len() == 0 {
    } else {
        let tail = ids.drop_first();
        lemma_rest_lits_elems(tail, combo);
        let rt = rest_lits(tail, combo);
        assert forall|x: i32| #[trigger] r.contains(x) implies ids.contains(x) && !combo.contains(
            x,
        ) by {
            let j = choose|j: int| 0 <= j < r.len() && r[j] == x;
            if combo.contains(ids[0]) {
                assert(rt.contains(x));
                let m = choose|m: int| 0 <= m < tail.len() && tail[m] == x;
                assert(ids[m + 1] == x);
            } else {
                if j == 0 {
                    assert(x == ids[0]);
                } else {
                    assert(rt[j - 1] == x);
                    assert(rt.contains(x));
                    let m = choose|m: int| 0 <= m < tail.len() && tail[m] == x;
                    assert(ids[m + 1] == x);
                }
            }
        }
        assert forall|x: i32| ids.contains(x) && !combo.contains(x) implies r.contains(x) by {
            let i = choose|i: int| 0 <= i < ids.len() && ids[i] == x;
            if i == 0 {
                assert(r[0] == x);
            } else {
                assert(tail[i - 1] == x);
                assert(tail.contains(x));
                assert(rt.contains(x));
                let j = choose|j: int| 0 <= j < rt.len() && rt[j] == x;
                if combo.contains(ids[0]) {
                    assert(r[j] == x);
                } else {
                    assert(r[j + 1] == x);
                }
            }
        }
    }
}

/// Each subset of size below `k` contributes its clause to the at-least
/// family.
proof fn lemma_at_least_clauses_contains(k: nat, ids: Seq<i32>, m: nat, c: Seq<i32>)
    requires
        m < k,
        spec_combinations(ids, m).contains(c),
    ensures
        at_least_clauses(k, ids).contains(at_least_clause(c, ids)),
    decreases k,
{
    let whole = at_least_clauses(k, ids);
    let prev = at_least_clauses((k - 1) as nat, ids);
    if m == k - 1 {
        let j = choose|j: int|
            0 <= j < spec_combinations(ids, m).len() && #[trigger] spec_combinations(ids, m)[j]
                == c;
        assert(whole[prev.len() + j] == at_least_clause(c, ids));
    } else {
        lemma_at_least_clauses_contains((k - 1) as nat, ids, m, c);
        let j = choose|j: int| 0 <= j < prev.len() && #[trigger] prev[j] == at_least_clause(c, ids);
        assert(whole[j] == at_least_clause(c, ids));
    }
}

/// Each member of the at-least family is the clause of some subset of size
/// below `k`; this hands back that size and subset.
proof fn lemma_at_least_clauses_inv(k: nat, ids: Seq<i32>, i: int) -> (r: (nat, Seq<i32>))
    requires
        0 <= i < at_least_clauses(k, ids).len(),
    ensures
        r.0 < k,
        spec_combinations(ids, r.0).contains(r.1),
        at_least_clauses(k, ids)[i] == at_least_clause(r.1, ids),
    decreases k,
{
    let prev = at_least_clauses((k - 1) as nat, ids);
    if i < prev.len() {
        let r = lemma_at_least_clauses_inv((k - 1) as nat, ids, i);
        assert(at_least_clauses(k, ids)[i] == prev[i]);
        r
    } else {
        let j = i - prev.len();
        let c = spec_combinations(ids, (k - 1) as nat)[j];
        assert(spec_combinations(ids, (k - 1) as nat).contains(c));
        ((k - 1) as nat, c)
    }
}

/// The at-most-k family is satisfied exactly when at most `k` of the
/// variables are true.
pub proof fn lemma_at_most_exact(asg: Seq<bool>, ids: Seq<i32>, k: nat)
    requires
        ids_in_range(ids, asg.len() as int),
    ensures
        formula_holds(asg, at_most_clauses(k, ids)) <==> count_true(asg, ids) <= k,
{
    let fml = at_most_clauses(k, ids);
    let combos = spec_combinations(ids, (k + 1) as nat);
    lemma_combinations_sound(ids, (k + 1) as nat);
    if count_true(asg, ids) > k {
        let c = lemma_true_subseq(asg, ids, k as int + 1);
        lemma_combinations_complete(ids, (k + 1) as nat, c);
        lemma_subsequence_elements(c, ids);
        let j = choose|j: int| 0 <= j < combos.len() && #[trigger] combos[j] == c;
        assert(fml[j] == neg_clause(c));
        assert forall|b: int| 0 <= b < neg_clause(c).len() implies !lit_holds(
            asg,
            #[trigger] neg_clause(c)[b],
        ) by {
            assert(neg_clause(c)[b] == (-c[b]) as i32);
            assert(c.contains(c[b]));
            assert(ids.contains(c[b]));
            let m = choose|m: int| 0 <= m < ids.len() && ids[m] == c[b];
            assert(1 <= c[b] <= asg.len());
            assert(lit_holds(asg, c[b]));
        }
        assert(!clause_holds(asg, fml[j]));
        assert(!formula_holds(asg, fml));
    }
    if count_true(asg, ids) <= k {
        assert forall|i: int| 0 <= i < fml.len() implies clause_holds(asg, #[trigger] fml[i]) by {
            let c = combos[i];
            assert(fml[i] == neg_clause(c));
            if !clause_holds(asg, fml[i]) {
                assert forall|b: int| 0 <= b < c.len() implies lit_holds(asg, #[trigger] c[b]) by {
                    assert(neg_clause(c)[b] == (-c[b]) as i32);
                    assert(!lit_holds(asg, neg_clause(c)[b]));
                    lemma_subsequence_elements(c, ids);
                    assert(c.contains(c[b]));
                    assert(ids.contains(c[b]));
                    let m = choose|m: int| 0 <= m < ids.len() && ids[m] == c[b];
                    assert(1 <= c[b] <= asg.len());
                }
                lemma_all_true_count(asg, c, ids);
                assert(false);
            }
        }
    }
}

/// The at-least-k family is satisfied exactly when at least `k` of the
/// (distinct) variables are true.
pub proof fn lemma_at_least_exact(asg: Seq<bool>, ids: Seq<i32>, k: nat)
    requires
        ids_in_range(ids, asg.len() as int),
        distinct_ids(ids),
    ensures
        formula_holds(asg, at_least_clauses(k, ids)) <==> count_true(asg, ids) >= k,
{
    let fml = at_least_clauses(k, ids);
    lemma_count_bounds(asg, ids);
    if count_true(asg, ids) < k {
        lemma_trues_props(asg, ids);
        let t = trues(asg, ids);
        let m = t.len();
        lemma_combinations_complete(ids, m as nat, t);
        lemma_at_least_clauses_contains(k, ids, m as nat, t);
        lemma_subsequence_elements(t, ids);
        lemma_rest_lits_elems(ids, t);
        let cl = at_least_clause(t, ids);
        let rest = rest_lits(ids, t);
        assert forall|b: int| 0 <= b < cl.len() implies !lit_holds(asg, #[trigger] cl[b]) by {
            if b < t.len() {
                assert(cl[b] == neg_clause(t)[b]);
                assert(neg_clause(t)[b] == (-t[b]) as i32);
                assert(t.contains(t[b]));
                assert(ids.contains(t[b]));
                let w = choose|w: int| 0 <= w < ids.len() && ids[w] == t[b];
                assert(1 <= t[b] <= asg.len());
                assert(lit_holds(asg, t[b]));
            } else {
                let x = rest[b - t.len()];
                assert(cl[b] == x);
                assert(rest.contains(x));
                assert(ids.contains(x) && !t.contains(x));
                let w = choose|w: int| 0 <= w < ids.len() && ids[w] == x;
                assert(1 <= x <= asg.len());
                if lit_holds(asg, x) {
                    assert(t.contains(x));
                    assert(false);
                }
            }
        }
        assert(!clause_holds(asg, cl));
        let j = choose|j: int| 0 <= j < fml.len() && #[trigger] fml[j] == cl;
        assert(!formula_holds(asg, fml));
    }
    if count_true(asg, ids) >= k {
        assert forall|i: int| 0 <= i < fml.len() implies clause_holds(asg, #[trigger] fml[i]) by {
            let pair = lemma_at_least_clauses_inv(k, ids, i);
            let m = pair.0;
            let c = pair.1;
            let cl = at_least_clause(c, ids);
            let rest = rest_lits(ids, c);
            lemma_combinations_sound(ids, m);
            let ci = choose|ci: int|
                0 <= ci < spec_combinations(ids, m).len() && #[trigger] spec_combinations(ids, m)[ci]
                    == c;
            assert(c.len() == m);
            assert(is_subsequence(c, ids));
            lemma_rest_lits_elems(ids, c);
            if !clause_holds(asg, cl) {
                assert forall|b: int| 0 <= b < c.len() implies lit_holds(asg, #[trigger] c[b]) by {
                    assert(cl[b] == neg_clause(c)[b]);
                    assert(neg_clause(c)[b] == (-c[b]) as i32);
                    assert(!lit_holds(asg, cl[b]));
                    lemma_subsequence_elements(c, ids);
                    assert(c.contains(c[b]));
                    assert(ids.contains(c[b]));
                    let w = choose|w: int| 0 <= w < ids.len() && ids[w] == c[b];
                    assert(1 <= c[b] <= asg.len());
                }
                assert forall|x: i32| ids.contains(x) && lit_holds(asg, x) implies c.contains(
                    x,
                ) by {
                    if !c.contains(x) {
                        assert(rest.contains(x));
                        let j = choose|j: int| 0 <= j < rest.len() && rest[j] == x;
                        assert(cl[c.len() + j] == x);
                        assert(clause_holds(asg, cl));
                        assert(false);
                    }
                }
                lemma_exact_true_count(asg, c, ids);
                assert(false);
            }
        }
    }
}

/// The at-least-k and at-most-k families together are satisfied exactly by
/// the assignments that make precisely `k` of the (distinct) variables true.
pub proof fn lemma_cardinality_exact(asg: Seq<bool>, ids: Seq<i32>, k: nat)
    requires
        ids_in_range(ids, asg.len() as int),
        distinct_ids(ids),
        k <= ids.len(),
    ensures
        formula_holds(asg, at_least_result(k, ids) + at_most_clauses(k, ids)) <==> count_true(
            asg,
            ids,
        ) == k,
{
    lemma_formula_concat(asg, at_least_result(k, ids), at_most_clauses(k, ids));
    lemma_at_most_exact(asg, ids, k);
    lemma_count_bounds(asg, ids);
    if k == 0 {
        assert(formula_holds(asg, at_least_result(0, ids)));
    } else {
        assert(at_least_result(k, ids) == at_least_clauses(k, ids));
        lemma_at_least_exact(asg, ids, k);
    }
}

/// An exactly-one constraint over distinct variables accepts exactly the
/// one-hot assignments: those making a single variable of the family true.
pub proof fn lemma_exactly_one(asg: Seq<bool>, ids: Seq<i32>)
    requires
        ids_in_range(ids, asg.len() as int),
        distinct_ids(ids),
        ids.len() >= 1,
    ensures
        formula_holds(asg, at_least_result(1, ids) + at_most_clauses(1, ids)) <==> count_true(
            asg,
            ids,
        ) == 1,
        formula_holds(asg, at_least_result(1, ids) + at_most_clauses(1, ids)) <==> exists|j: int|
            one_hot(asg, ids, j),
{
    lemma_cardinality_exact(asg, ids, 1);
    lemma_count_one_hot(asg, ids);
}


/// The count is zero exactly when no variable of the family is true.
pub proof fn lemma_count_zero(asg: Seq<bool>, ids: Seq<i32>)
    ensures
        count_true(asg, ids) == 0 <==> (forall|m: int|
            0 <= m < ids.len() ==> !lit_holds(asg, #[trigger] ids[m])),
    decreases ids.len(),
{
    lemma_count_bounds(asg, ids);
    if ids.len() > 0 {
        let tail = ids.drop_first();
        lemma_count_zero(asg, tail);
        lemma_count_bounds(asg, tail);
        if count_true(asg, ids) == 0 {
            assert forall|m: int| 0 <= m < ids.len() implies !lit_holds(asg, #[trigger] ids[m]) by {
                if m > 0 {
                    assert(tail[m - 1] == ids[m]);
                }
            }
        }
        if forall|m: int| 0 <= m < ids.len() ==> !lit_holds(asg, #[trigger] ids[m]) {
            assert forall|m: int| 0 <= m < tail.len() implies !lit_holds(asg, #[trigger] tail[m]) by {
                assert(ids[m + 1] == tail[m]);
            }
        }
    }
}

/// The assignment makes exactly the variable at position `j` of the family
/// true, and every other one false.
pub open spec fn one_hot(asg: Seq<bool>, ids: Seq<i32>, j: int) -> bool {
    &&& 0 <= j < ids.len()
    &&& lit_holds(asg, ids[j])
    &&& forall|m: int| 0 <= m < ids.len() && m != j ==> !lit_holds(asg, #[trigger] ids[m])
}

/// The count is one exactly for the one-hot assignments.
pub proof fn lemma_count_one_hot(asg: Seq<bool>, ids: Seq<i32>)
    ensures
        count_true(asg, ids) == 1 <==> exists|j: int| one_hot(asg, ids, j),
    decreases ids.len(),
{
    lemma_count_bounds(asg, ids);
    if ids.len() == 0 {
    } else {
        let tail = ids.drop_first();
        lemma_count_one_hot(asg, tail);
        lemma_count_zero(asg, tail);
        lemma_count_bounds(asg, tail);
        if count_true(asg, ids) == 1 {
            if lit_holds(asg, ids[0]) {
                assert forall|m: int| 0 <= m < ids.len() && m != 0 implies !lit_holds(
                    asg,
                    #[trigger] ids[m],
                ) by {
                    assert(tail[m - 1] == ids[m]);
                }
                assert(one_hot(asg, ids, 0));
            } else {
                let j = choose|j: int| one_hot(asg, tail, j);
                assert forall|m: int| 0 <= m < ids.len() && m != j + 1 implies !lit_holds(
                    asg,
                    #[trigger] ids[m],
                ) by {
                    if m > 0 {
                        assert(tail[m - 1] == ids[m]);
                    }
                }
                assert(ids[j + 1] == tail[j]);
                assert(one_hot(asg, ids, j + 1));
            }
        }
        if exists|j: int| one_hot(asg, ids, j) {
            let j = choose|j: int| one_hot(asg, ids, j);
            if j == 0 {
                assert forall|m: int| 0 <= m < tail.len() implies !lit_holds(
                    asg,
                    #[trigger] tail[m],
                ) by {
                    assert(ids[m + 1] == tail[m]);
                }
                assert(count_true(asg, tail) == 0);
            } else {
                assert(tail[j - 1] == ids[j]);
                assert forall|m: int| 0 <= m < tail.len() && m != j - 1 implies !lit_holds(
                    asg,
                    #[trigger] tail[m],
                ) by {
                    assert(ids[m + 1] == tail[m]);
                }
                assert(one_hot(asg, tail, j - 1));
                assert(!lit_holds(asg, ids[0]));
            }
        }
    }
}

/// An impossible at-least request yields the empty clause, which no
/// assignment satisfies.
pub proof fn lemma_at_least_impossible(asg: Seq<bool>, ids: Seq<i32>, k: nat)
    requires
        k > ids.len(),
    ensures
        !formula_holds(asg, at_least_result(k, ids)),
{
    let fml = at_least_result(k, ids);
    assert(fml[0] == Seq::<i32>::empty());
    assert(!clause_holds(asg, fml[0]));
}


/// Subsequences of a duplicate-free sequence are themselves duplicate-free:
/// enumerated subsets draw their elements without repetition.
pub proof fn lemma_subsequence_distinct(c: Seq<i32>, s: Seq<i32>)
    requires
        is_subsequence(c, s),
        distinct_ids(s),
    ensures
        distinct_ids(c),
    decreases s.len(),
{
    if c.len() == 0 {
    } else if s.len() == 0 {
    } else {
        let st = s.drop_last();
        assert forall|i: int, j: int| 0 <= i < j < s.drop_first().len() implies s.drop_first()[i]
            != s.drop_first()[j] by {
            assert(s[i + 1] != s[j + 1]);
        }
        if c[0] == s[0] && is_subsequence(c.drop_first(), s.drop_first()) {
            lemma_subsequence_distinct(c.drop_first(), s.drop_first());
            lemma_subsequence_elements(c.drop_first(), s.drop_first());
            assert forall|i: int, j: int| 0 <= i < j < c.len() implies c[i] != c[j] by {
                if i == 0 {
                    assert(c.drop_first()[j - 1] == c[j]);
                    assert(c.drop_first().contains(c[j]));
                    assert(s.drop_first().contains(c[j]));
                    let m = choose|m: int|
                        0 <= m < s.drop_first().len() && s.drop_first()[m] == c[j];
                    assert(s[m + 1] == c[j]);
                    assert(s[0] != s[m + 1]);
                } else {
                    assert(c.drop_first()[i - 1] != c.drop_first()[j - 1]);
                }
            }
        } else {
            lemma_subsequence_distinct(c, s.drop_first());
        }
    }
}

/// Truth of one literal under an assignment, as executable code.
pub fn lit_satisfied(asg: &Vec<bool>, lit: i32) -> (r: bool)
    requires
        lit != i32::MIN,
    ensures
        r == lit_holds(asg@, lit),
{
    if lit > 0 {
        let idx = (lit - 1) as usize;
        if idx < asg.len() {
            asg[idx]
        } else {
            false
        }
    } else if lit < 0 {
        let idx = (-lit - 1) as usize;
        if idx < asg.len() {
            !asg[idx]
        } else {
            false
        }
    } else {
        false
    }
}

/// Whether an assignment satisfies one clause.
pub fn clause_satisfied(asg: &Vec<bool>, clause: &Vec<i32>) -> (r: bool)
    requires
        forall|i: int| 0 <= i < clause@.len() ==> clause@[i] != i32::MIN,
    ensures
        r == clause_holds(asg@, clause@),
{
    let mut i: usize = 0;
    while i < clause.len()
        invariant
            i <= clause@.len(),
            forall|m: int| 0 <= m < clause@.len() ==> clause@[m] != i32::MIN,
            forall|m: int| 0 <= m < i ==> !lit_holds(asg@, #[trigger] clause@[m]),
        decreases clause@.len() - i,
    {
        if lit_satisfied(asg, clause[i]) {
            return true;
        }
        i += 1;
    }
    false
}

/// Whether an assignment satisfies every clause of a formula.
pub fn formula_satisfied(asg: &Vec<bool>, clauses: &Vec<Vec<i32>>) -> (r: bool)
    requires
        forall|a: int, b: int|
            0 <= a < clauses@.len() && 0 <= b < clauses@[a]@.len() ==> clauses@[a]@[b] != i32::MIN,
    ensures
        r == formula_holds(asg@, clauses.deep_view()),
{
    let mut i: usize = 0;
    while i < clauses.len()
        invariant
            i <= clauses@.len(),
            forall|a: int, b: int|
                0 <= a < clauses@.len() && 0 <= b < clauses@[a]@.len() ==> clauses@[a]@[b]
                    != i32::MIN,
            forall|m: int| 0 <= m < i ==> clause_holds(asg@, #[trigger] clauses.deep_view()[m]),
        decreases clauses@.len() - i,
    {
        let sat_here = clause_satisfied(asg, &clauses[i]);
        proof {
            assert(clauses.deep_view()[i as int] =~= clauses@[i as int]@);
        }
        if !sat_here {
            proof {
                assert(!clause_holds(asg@, clauses.deep_view()[i as int]));
            }
            return false;
        }
        i += 1;
    }
    proof {
        assert(clauses.deep_view().len() == clauses@.len());
    }
    true
}

} // verus!
