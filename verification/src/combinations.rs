use vstd::prelude::*;

verus! {

/// Input sizes below this bound are enumerated sequentially; at or above it the
/// two recursive branches run as parallel tasks.
pub const PARALLEL_THRESHOLD: usize = 10;

/// Every `k`-element subsequence of `items`: a subset either contains the first
/// element (recurse for `k - 1` over the tail) or does not (recurse for `k`).
pub open spec fn spec_combinations(items: Seq<i32>, k: nat) -> Seq<Seq<i32>>
    decreases items.len(),
{
    if k == 0 {
        seq![Seq::<i32>::empty()]
    } else if items.len() == 0 {
        Seq::<Seq<i32>>::empty()
    } else {
        spec_combinations(items.drop_first(), (k - 1) as nat).map_values(
            |c: Seq<i32>| seq![items[0]] + c,
        ) + spec_combinations(items.drop_first(), k)
    }
}

/// `sub` can be obtained from `s` by deleting elements, keeping relative order.
pub open spec fn is_subsequence(sub: Seq<i32>, s: Seq<i32>) -> bool
    decreases s.len(),
{
    if sub.len() == 0 {
        true
    } else if s.len() == 0 {
        false
    } else {
        (sub[0] == s[0] && is_subsequence(sub.drop_first(), s.drop_first())) || is_subsequence(
            sub,
            s.drop_first(),
        )
    }
}

/// The binomial coefficient: the number of `k`-element subsets of an `n`-element set.
pub open spec fn binomial(n: nat, k: nat) -> nat
    decreases n,
{
    if k == 0 {
        1
    } else if n == 0 {
        0
    } else {
        binomial((n - 1) as nat, (k - 1) as nat) + binomial((n - 1) as nat, k)
    }
}

/// Every enumerated combination has exactly `k` elements and is a subsequence
/// of the input.
pub proof fn lemma_combinations_sound(items: Seq<i32>, k: nat)
    ensures
        forall|i: int|
            0 <= i < spec_combinations(items, k).len() ==> {
                &&& (#[trigger] spec_combinations(items, k)[i]).len() == k
                &&& is_subsequence(spec_combinations(items, k)[i], items)
            },
    decreases items.len(),
{
    if k == 0 {
    } else if items.len() == 0 {
    } else {
        let tail = items.drop_first();
        lemma_combinations_sound(tail, (k - 1) as nat);
        lemma_combinations_sound(tail, k);
        let withf = spec_combinations(tail, (k - 1) as nat).map_values(
            |c: Seq<i32>| seq![items[0]] + c,
        );
        let without = spec_combinations(tail, k);
        assert forall|i: int| 0 <= i < spec_combinations(items, k).len() implies {
            &&& (#[trigger] spec_combinations(items, k)[i]).len() == k
            &&& is_subsequence(spec_combinations(items, k)[i], items)
        } by {
            if i < withf.len() {
                let c = spec_combinations(tail, (k - 1) as nat)[i];
                assert(spec_combinations(items, k)[i] == seq![items[0]] + c);
                assert((seq![items[0]] + c).drop_first() =~= c);
            } else {
                assert(spec_combinations(items, k)[i] == without[i - withf.len()]);
            }
        }
    }
}

/// The number of enumerated combinations is the binomial coefficient.
pub proof fn lemma_combinations_count(items: Seq<i32>, k: nat)
    ensures
        spec_combinations(items, k).len() == binomial(items.len(), k),
    decreases items.len(),
{
    if k == 0 {
    } else if items.len() == 0 {
    } else {
        lemma_combinations_count(items.drop_first(), (k - 1) as nat);
        lemma_combinations_count(items.drop_first(), k);
    }
}

/// Asking for more elements than the input has yields no combinations.
pub proof fn lemma_combinations_empty(items: Seq<i32>, k: nat)
    requires
        k > items.len(),
    ensures
        spec_combinations(items, k) == Seq::<Seq<i32>>::empty(),
    decreases items.len(),
{
    if items.len() == 0 {
    } else {
        lemma_combinations_empty(items.drop_first(), (k - 1) as nat);
        lemma_combinations_empty(items.drop_first(), k);
        assert(spec_combinations(items, k) =~= Seq::<Seq<i32>>::empty());
    }
}

/// Every `k`-element subsequence of the input occurs among the enumerated
/// combinations.
pub proof fn lemma_combinations_complete(items: Seq<i32>, k: nat, sub: Seq<i32>)
    requires
        is_subsequence(sub, items),
        sub.len() == k,
    ensures
        spec_combinations(items, k).contains(sub),
    decreases items.len(),
{
    if k == 0 {
        assert(sub =~= Seq::<i32>::empty());
        assert(spec_combinations(items, k)[0] == sub);
    } else {
        let tail = items.drop_first();
        let withf = spec_combinations(tail, (k - 1) as nat).map_values(
            |c: Seq<i32>| seq![items[0]] + c,
        );
        if sub[0] == items[0] && is_subsequence(sub.drop_first(), tail) {
            lemma_combinations_complete(tail, (k - 1) as nat, sub.drop_first());
            let j = choose|j: int|
                0 <= j < spec_combinations(tail, (k - 1) as nat).len() && #[trigger] spec_combinations(
                    tail,
                    (k - 1) as nat,
                )[j] == sub.drop_first();
            assert(withf[j] == seq![items[0]] + sub.drop_first());
            assert(seq![items[0]] + sub.drop_first() =~= sub);
            assert(spec_combinations(items, k)[j] == sub);
        } else {
            lemma_combinations_complete(tail, k, sub);
            let j = choose|j: int|
                0 <= j < spec_combinations(tail, k).len() && #[trigger] spec_combinations(
                    tail,
                    k,
                )[j] == sub;
            assert(spec_combinations(items, k)[withf.len() + j] == sub);
        }
    }
}

/// Every element of a subsequence is an element of the enclosing sequence.
pub proof fn lemma_subsequence_elements(sub: Seq<i32>, s: Seq<i32>)
    requires
        is_subsequence(sub, s),
    ensures
        forall|x: i32| sub.contains(x) ==> s.contains(x),
    decreases s.len(),
{
    if sub.len() == 0 {
    } else if s.len() == 0 {
    } else {
        if sub[0] == s[0] && is_subsequence(sub.drop_first(), s.drop_first()) {
            lemma_subsequence_elements(sub.drop_first(), s.drop_first());
            assert forall|x: i32| sub.contains(x) implies s.contains(x) by {
                let i = choose|i: int| 0 <= i < sub.len() && sub[i] == x;
                if i == 0 {
                    assert(s[0] == x);
                } else {
                    assert(sub.drop_first()[i - 1] == x);
                    assert(sub.drop_first().contains(x));
                    let j = choose|j: int|
                        0 <= j < s.drop_first().len() && s.drop_first()[j] == x;
                    assert(s[j + 1] == x);
                }
            }
        } else {
            lemma_subsequence_elements(sub, s.drop_first());
            assert forall|x: i32| sub.contains(x) implies s.contains(x) by {
                assert(s.drop_first().contains(x));
                let j = choose|j: int| 0 <= j < s.drop_first().len() && s.drop_first()[j] == x;
                assert(s[j + 1] == x);
            }
        }
    }
}

/// The plain recursive enumeration, considering `items[start..]`.
fn combinations_seq_from(items: &[i32], start: usize, k: usize) -> (r: Vec<Vec<i32>>)
    requires
        start <= items@.len(),
    ensures
        r.deep_view() == spec_combinations(items@.skip(start as int), k as nat),
    decreases items@.len() - start,
{
    let ghost rest = items@.skip(start as int);
    if k == 0 {
        let mut r: Vec<Vec<i32>> = Vec::new();
        r.push(Vec::new());
        proof {
            assert(r.deep_view() =~~= spec_combinations(rest, 0));
        }
        r
    } else if start == items.len() {
        let r: Vec<Vec<i32>> = Vec::new();
        proof {
            assert(rest.len() == 0);
            assert(r.deep_view() =~= spec_combinations(rest, k as nat));
        }
        r
    } else {
        proof {
            assert(rest.drop_first() =~= items@.skip(start as int + 1));
            assert(rest[0] == items@[start as int]);
        }
        let sub = combinations_seq_from(items, start + 1, k - 1);
        let mut r = prepend_to_each(items[start], &sub);
        let mut without = combinations_seq_from(items, start + 1, k);
        r.append(&mut without);
        proof {
            assert(r.deep_view() =~= spec_combinations(rest, k as nat));
        }
        r
    }
}

/// Builds the "subsets containing the split element" half: a copy of each given
/// combination with `first` in front.
fn prepend_to_each(first: i32, sub: &Vec<Vec<i32>>) -> (r: Vec<Vec<i32>>)
    ensures
        r.deep_view() == sub.deep_view().map_values(|c: Seq<i32>| seq![first] + c),
{
    let mut r: Vec<Vec<i32>> = Vec::new();
    let mut i: usize = 0;
    while i < sub.len()
        invariant
            i <= sub@.len(),
            r@.len() == i,
            forall|m: int|
                0 <= m < i ==> #[trigger] r.deep_view()[m] == seq![first] + sub.deep_view()[m],
        decreases sub@.len() - i,
    {
        let mut c: Vec<i32> = Vec::new();
        c.push(first);
        let mut j: usize = 0;
        while j < sub[i].len()
            invariant
                i < sub@.len(),
                j <= sub@[i as int]@.len(),
                c@ =~= seq![first] + sub@[i as int]@.take(j as int),
            decreases sub@[i as int]@.len() - j,
        {
            let x = sub[i][j];
            c.push(x);
            j += 1;
        }
        proof {
            assert(c.deep_view() =~= seq![first] + sub.deep_view()[i as int]);
        }
        let ghost r0 = r;
        r.push(c);
        proof {
            assert forall|m: int|
                0 <= m < i + 1 implies #[trigger] r.deep_view()[m] == seq![first]
                + sub.deep_view()[m] by {
                assert(r.deep_view()[m] == r@[m].deep_view());
                if m < i {
                    assert(r@[m] == r0@[m]);
                    assert(r0.deep_view()[m] == r0@[m].deep_view());
                } else {
                    assert(r@[m] == c);
                }
            }
        }
        i += 1;
    }
    proof {
        assert(r.deep_view().len() == r@.len());
        assert(r.deep_view() =~~= sub.deep_view().map_values(|c: Seq<i32>| seq![first] + c));
    }
    r
}

/// Sequential recursive subset enumeration. It meets the same exact
/// specification as the threshold-driven parallel path, so the two paths
/// return equal results on every input.
pub fn combinations_sequential(items: &[i32], k: usize) -> (r: Vec<Vec<i32>>)
    ensures
        r.deep_view() == spec_combinations(items@, k as nat),
{
    let r = combinations_seq_from(items, 0, k);
    proof {
        assert(items@.skip(0) =~= items@);
    }
    r
}

/// One singleton combination per item: the `k == 1` fast path.
fn singletons_from(items: &[i32], start: usize) -> (r: Vec<Vec<i32>>)
    requires
        start <= items@.len(),
    ensures
        r.deep_view() == spec_combinations(items@.skip(start as int), 1),
{
    let mut r: Vec<Vec<i32>> = Vec::new();
    let mut i: usize = start;
    while i < items.len()
        invariant
            start <= i <= items@.len(),
            r@.len() == i - start,
            forall|m: int|
                0 <= m < i - start ==> #[trigger] r.deep_view()[m] == seq![
                    items@[start as int + m],
                ],
        decreases items@.len() - i,
    {
        let mut c: Vec<i32> = Vec::new();
        c.push(items[i]);
        proof {
            assert(c.deep_view() =~= seq![items@[i as int]]);
        }
        let ghost r0 = r;
        r.push(c);
        proof {
            assert forall|m: int|
                0 <= m < i + 1 - start implies #[trigger] r.deep_view()[m] == seq![
                    items@[start as int + m],
                ] by {
                assert(r.deep_view()[m] == r@[m].deep_view());
                if m < i - start {
                    assert(r@[m] == r0@[m]);
                    assert(r0.deep_view()[m] == r0@[m].deep_view());
                } else {
                    assert(r@[m] == c);
                }
            }
        }
        i += 1;
    }
    proof {
        assert(r.deep_view().len() == r@.len());
        assert(r.deep_view() =~~= items@.skip(start as int).map_values(|x: i32| seq![x]));
        lemma_combinations_singletons(items@.skip(start as int));
    }
    r
}

/// `spec_combinations` at `k == 1` is exactly the sequence of singletons.
proof fn lemma_combinations_singletons(items: Seq<i32>)
    ensures
        spec_combinations(items, 1) == items.map_values(|x: i32| seq![x]),
    decreases items.len(),
{
    if items.len() == 0 {
        assert(spec_combinations(items, 1) =~= items.map_values(|x: i32| seq![x]));
    } else {
        lemma_combinations_singletons(items.drop_first());
        assert(spec_combinations(items.drop_first(), 0).map_values(
            |c: Seq<i32>| seq![items[0]] + c,
        ) =~= seq![seq![items[0]]]);
        assert(seq![items[0]] + Seq::<i32>::empty() =~= seq![items[0]]);
        assert(spec_combinations(items, 1) =~= items.map_values(|x: i32| seq![x]));
    }
}

/// Enumeration with a parallel/sequential cutover at `threshold`, considering
/// `items[start..]`.
fn combinations_par_from(items: &[i32], start: usize, k: usize, threshold: usize) -> (r: Vec<
    Vec<i32>,
>)
    requires
        start <= items@.len(),
    ensures
        r.deep_view() == spec_combinations(items@.skip(start as int), k as nat),
{
    let ghost rest = items@.skip(start as int);
    if k == 0 {
        let mut r: Vec<Vec<i32>> = Vec::new();
        r.push(Vec::new());
        proof {
            assert(r.deep_view() =~~= spec_combinations(rest, 0));
        }
        r
    } else if start == items.len() {
        let r: Vec<Vec<i32>> = Vec::new();
        proof {
            assert(r.deep_view() =~= spec_combinations(rest, k as nat));
        }
        r
    } else if k == 1 {
        singletons_from(items, start)
    } else if items.len() - start < threshold {
        combinations_seq_from(items, start, k)
    } else {
        proof {
            assert(rest.drop_first() =~= items@.skip(start as int + 1));
            assert(rest[0] == items@[start as int]);
        }
        let (mut r, mut without) = join_combination_branches(items, start, k, threshold);
        r.append(&mut without);
        proof {
            assert(r.deep_view() =~= spec_combinations(rest, k as nat));
        }
        r
    }
}

/// The "subsets containing `items[start]`" branch of the parallel split.
fn combinations_including_first(items: &[i32], start: usize, k: usize, threshold: usize) -> (r:
    Vec<Vec<i32>>)
    requires
        start < items@.len(),
        k >= 1,
    ensures
        r.deep_view() == spec_combinations(items@.skip(start as int + 1), (k - 1) as nat)
            .map_values(|c: Seq<i32>| seq![items@[start as int]] + c),
{
    let _n: usize = items.len();
    let first = items[start];
    let sub = combinations_par_from(items, start + 1, k - 1, threshold);
    prepend_to_each(first, &sub)
}

/// Relies on rayon::join: it runs both closures to completion (in parallel when
/// a worker is free) and returns the pair of their results.
#[verifier::external_body]
fn join_combination_branches(items: &[i32], start: usize, k: usize, threshold: usize) -> (r: (
    Vec<Vec<i32>>,
    Vec<Vec<i32>>,
))
    requires
        start < items@.len(),
        k >= 1,
    ensures
        r.0.deep_view() == spec_combinations(items@.skip(start as int + 1), (k - 1) as nat)
            .map_values(|c: Seq<i32>| seq![items@[start as int]] + c),
        r.1.deep_view() == spec_combinations(items@.skip(start as int + 1), k as nat),
{
    rayon::join(
        || combinations_including_first(items, start, k, threshold),
        || combinations_par_from(items, start + 1, k, threshold),
    )
}

/// Subset enumeration with an explicit parallel/sequential cutover: inputs of
/// at least `threshold` remaining elements fork their two recursive branches
/// as parallel tasks. The result is the same as the sequential path's.
pub fn combinations_with_threshold(items: &[i32], k: usize, threshold: usize) -> (r: Vec<Vec<i32>>)
    ensures
        r.deep_view() == spec_combinations(items@, k as nat),
{
    let r = combinations_par_from(items, 0, k, threshold);
    proof {
        assert(items@.skip(0) =~= items@);
    }
    r
}

/// Subset enumeration, parallel above the default size threshold.
pub fn generate_combinations_optimized(items: &[i32], k: usize) -> (r: Vec<Vec<i32>>)
    ensures
        r.deep_view() == spec_combinations(items@, k as nat),
{
    combinations_with_threshold(items, k, PARALLEL_THRESHOLD)
}

} // verus!
