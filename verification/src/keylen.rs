//! Key-length estimation: fitness of candidate lengths, local-maximum
//! detection, ranking, and divisor voting.

use vstd::prelude::*;

use crate::error::XorError;
use crate::fitness::{
    den_spec, fitness_den, fitness_eq, fitness_lt, lemma_den_spec_pos, rat_eq, rat_le, rat_lt,
    Fitness,
};
use crate::hist::{coincidence, count_equals};

verus! {

/// A candidate key length paired with its fitness.
#[derive(Clone, Copy, Debug, PartialEq, Eq, Structural)]
pub struct LengthFitness {
    /// The candidate key length.
    pub length: usize,
    /// The fitness of that length.
    pub fitness: Fitness,
}

/// Fitness numerator of key length `l`: its coincidence count.  Length zero
/// acts as the boundary before the scan starts and has numerator zero.
pub open spec fn fit_num(text: Seq<u8>, l: int) -> int {
    if l < 1 {
        0
    } else {
        coincidence(text, l)
    }
}

/// Fitness denominator of key length `l` probed up to `m`.
pub open spec fn fit_den(l: int, m: int) -> int {
    if l < 1 {
        1
    } else {
        den_spec(l, m)
    }
}

/// `f` holds exactly the fitness of key length `l` probed up to `m`.
pub open spec fn is_fitness_of(f: Fitness, text: Seq<u8>, l: int, m: int) -> bool {
    &&& f.num == fit_num(text, l)
    &&& f.den == fit_den(l, m)
}

/// The fitness of key length `a` is strictly below the fitness of key
/// length `b`, compared as exact rationals.
pub open spec fn fit_lt(text: Seq<u8>, m: int, a: int, b: int) -> bool {
    fit_num(text, a) * fit_den(b, m) < fit_num(text, b) * fit_den(a, m)
}

/// `k` is a candidate key length for `text` probed up to `m`: either a
/// local maximum of the fitness scan (its fitness strictly above both
/// neighbours), or the last length scanned while fitness was still rising.
pub open spec fn is_candidate(text: Seq<u8>, m: int, k: int) -> bool {
    ||| (1 <= k < m && fit_lt(text, m, k - 1, k) && fit_lt(text, m, k + 1, k))
    ||| (k == m && m >= 1 && fit_lt(text, m, m - 1, m))
}

/// Some element of `s` has key length `k`.
pub open spec fn contains_length(s: Seq<LengthFitness>, k: int) -> bool {
    exists|i: int| 0 <= i < s.len() && s[i].length == k
}

/// Scan the candidate key lengths `1 ..= max_key_length` and record every
/// local maximum of the fitness curve, in increasing length order; if the
/// fitness is still rising at the end of the range, the last length is
/// recorded too.
pub fn calculate_fitnesses(text: &[u8], max_key_length: usize) -> (r: Vec<LengthFitness>)
    requires
        max_key_length <= 0x7fff_ffff,
    ensures
        forall|i: int|
            0 <= i < r@.len() ==> is_candidate(
                text@,
                max_key_length as int,
                #[trigger] r@[i].length as int,
            ),
        forall|i: int|
            0 <= i < r@.len() ==> is_fitness_of(
                (#[trigger] r@[i]).fitness,
                text@,
                r@[i].length as int,
                max_key_length as int,
            ),
        forall|i: int, j: int| 0 <= i < j < r@.len() ==> r@[i].length < r@[j].length,
        forall|k: int|
            is_candidate(text@, max_key_length as int, k) ==> contains_length(r@, k),
{
    let ghost m = max_key_length as int;
    let mut fitnesses: Vec<LengthFitness> = Vec::new();
    let mut pprev = Fitness { num: 0, den: 1 };
    let mut prev = Fitness { num: 0, den: 1 };
    let mut key_length: usize = 1;
    while key_length <= max_key_length
        invariant
            max_key_length <= 0x7fff_ffff,
            m == max_key_length as int,
            1 <= key_length <= max_key_length + 1,
            is_fitness_of(prev, text@, key_length - 1, m),
            is_fitness_of(pprev, text@, key_length - 2, m),
            forall|i: int|
                0 <= i < fitnesses@.len() ==> is_candidate(
                    text@,
                    m,
                    #[trigger] fitnesses@[i].length as int,
                ),
            forall|i: int|
                0 <= i < fitnesses@.len() ==> is_fitness_of(
                    (#[trigger] fitnesses@[i]).fitness,
                    text@,
                    fitnesses@[i].length as int,
                    m,
                ),
            forall|i: int, j: int|
                0 <= i < j < fitnesses@.len() ==> fitnesses@[i].length < fitnesses@[j].length,
            forall|i: int|
                0 <= i < fitnesses@.len() ==> #[trigger] fitnesses@[i].length + 2 <= key_length,
            forall|k: int|
                1 <= k <= key_length - 2 && is_candidate(text@, m, k) ==> contains_length(
                    fitnesses@,
                    k,
                ),
        decreases max_key_length + 1 - key_length,
    {
        let num = count_equals(text, key_length);
        let den = fitness_den(key_length as u64, max_key_length as u64);
        let fitness = Fitness { num, den };
        proof {
            assert(is_fitness_of(fitness, text@, key_length as int, m));
        }
        if fitness_lt(&pprev, &prev) && fitness_lt(&fitness, &prev) {
            let cand = LengthFitness { length: key_length - 1, fitness: prev };
            proof {
                assert(rat_lt(pprev, prev) == fit_lt(text@, m, key_length - 2, key_length - 1));
                assert(rat_lt(fitness, prev) == fit_lt(text@, m, key_length as int, key_length - 1));
                assert(key_length >= 2) by {
                    if key_length == 1 {
                        assert(prev.num == 0);
                        assert(!rat_lt(pprev, prev));
                    }
                }
                assert(is_candidate(text@, m, key_length - 1));
            }
            let ghost olds = fitnesses@;
            fitnesses.push(cand);
            proof {
                let s = fitnesses@;
                assert(s == olds.push(cand));
                assert forall|k: int|
                    1 <= k <= key_length - 1 && is_candidate(text@, m, k) implies contains_length(
                    s,
                    k,
                ) by {
                    if k == key_length - 1 {
                        assert(s[s.len() - 1].length == k);
                    } else {
                        assert(contains_length(olds, k));
                        let i = choose|i: int| 0 <= i < olds.len() && olds[i].length == k;
                        assert(s[i].length == k);
                    }
                }
            }
        } else {
            proof {
                // The length `key_length - 1` is not a candidate: one of the
                // two strict comparisons of the peak test fails.
                assert forall|k: int|
                    1 <= k <= key_length - 1 && is_candidate(text@, m, k) implies contains_length(
                    fitnesses@,
                    k,
                ) by {
                    if k == key_length - 1 {
                        assert(rat_lt(pprev, prev) == fit_lt(text@, m, k - 1, k));
                        assert(rat_lt(fitness, prev) == fit_lt(text@, m, k + 1, k));
                        assert(false);
                    }
                }
            }
        }
        pprev = prev;
        prev = fitness;
        key_length = key_length + 1;
    }
    if fitness_lt(&pprev, &prev) {
        proof {
            assert(rat_lt(pprev, prev) == fit_lt(text@, m, m - 1, m));
            assert(max_key_length >= 1) by {
                if max_key_length == 0 {
                    assert(prev.num == 0);
                    assert(!rat_lt(pprev, prev));
                }
            }
            assert(is_candidate(text@, m, m));
        }
        let cand = LengthFitness { length: max_key_length, fitness: prev };
        let ghost olds = fitnesses@;
        fitnesses.push(cand);
        proof {
            let s = fitnesses@;
            assert(s == olds.push(cand));
            assert forall|k: int| is_candidate(text@, m, k) implies contains_length(s, k) by {
                if k == m {
                    assert(s[s.len() - 1].length == k);
                } else {
                    assert(1 <= k <= m - 1);
                    assert(contains_length(olds, k));
                    let i = choose|i: int| 0 <= i < olds.len() && olds[i].length == k;
                    assert(s[i].length == k);
                }
            }
        }
    } else {
        proof {
            assert forall|k: int| is_candidate(text@, m, k) implies contains_length(
                fitnesses@,
                k,
            ) by {
                if k == m {
                    assert(rat_lt(pprev, prev) == fit_lt(text@, m, m - 1, m));
                    assert(false);
                } else {
                    assert(1 <= k <= m - 1);
                }
            }
        }
    }
    fitnesses
}

/// `a` ranks strictly before `b`: the higher fitness first, ties broken by
/// the smaller key length.
pub open spec fn ranked_before(a: LengthFitness, b: LengthFitness) -> bool {
    rat_lt(b.fitness, a.fitness) || (rat_eq(a.fitness, b.fitness) && a.length < b.length)
}

/// With positive denominators, the strict rational order and rational
/// equality compose as expected.
pub proof fn lemma_rat_compose(a: Fitness, b: Fitness, c: Fitness)
    requires
        a.den >= 1,
        b.den >= 1,
        c.den >= 1,
    ensures
        rat_lt(a, b) && rat_lt(b, c) ==> rat_lt(a, c),
        rat_lt(a, b) && rat_eq(b, c) ==> rat_lt(a, c),
        rat_eq(a, b) && rat_lt(b, c) ==> rat_lt(a, c),
        rat_eq(a, b) && rat_eq(b, c) ==> rat_eq(a, c),
        rat_le(a, b) && rat_le(b, c) ==> rat_le(a, c),
        rat_le(a, b) && rat_lt(b, c) ==> rat_lt(a, c),
        rat_lt(a, b) && rat_le(b, c) ==> rat_lt(a, c),
{
    let an = a.num as int;
    let ad = a.den as int;
    let bn = b.num as int;
    let bd = b.den as int;
    let cn = c.num as int;
    let cd = c.den as int;
    assert((an * bd <= bn * ad && bn * cd <= cn * bd ==> an * cd <= cn * ad) && (an * bd <= bn * ad
        && bn * cd < cn * bd ==> an * cd < cn * ad) && (an * bd < bn * ad && bn * cd <= cn * bd
        ==> an * cd < cn * ad) && (bn * ad <= an * bd && cn * bd <= bn * cd ==> cn * ad <= an * cd))
        by (nonlinear_arith)
        requires
            ad >= 1,
            bd >= 1,
            cd >= 1,
    ;
}

/// The ranking order is transitive over values with positive denominators.
pub proof fn lemma_ranked_before_trans(a: LengthFitness, b: LengthFitness, c: LengthFitness)
    requires
        a.fitness.den >= 1,
        b.fitness.den >= 1,
        c.fitness.den >= 1,
        ranked_before(a, b),
        ranked_before(b, c),
    ensures
        ranked_before(a, c),
{
    lemma_rat_compose(c.fitness, b.fitness, a.fitness);
    lemma_rat_compose(a.fitness, b.fitness, c.fitness);
}

/// Two entries with different key lengths are always ordered one way or
/// the other.
pub proof fn lemma_ranked_before_total(a: LengthFitness, b: LengthFitness)
    requires
        a.length != b.length,
    ensures
        ranked_before(a, b) || ranked_before(b, a),
{
}

/// Decide whether `a` ranks strictly before `b`.
pub fn ranked_before_exec(a: &LengthFitness, b: &LengthFitness) -> (r: bool)
    ensures
        r == ranked_before(*a, *b),
{
    fitness_lt(&b.fitness, &a.fitness) || (fitness_eq(&a.fitness, &b.fitness) && a.length
        < b.length)
}

/// Sort candidate key lengths by fitness, best first; entries of equal
/// fitness keep their original order, which is ascending key length.
pub fn sort_fitnesses(fitnesses: &Vec<LengthFitness>) -> (r: Vec<LengthFitness>)
    requires
        forall|i: int, j: int|
            0 <= i < j < fitnesses@.len() ==> (#[trigger] fitnesses@[i]).length != (
            #[trigger] fitnesses@[j]).length,
        forall|i: int|
            0 <= i < fitnesses@.len() ==> (#[trigger] fitnesses@[i]).fitness.den >= 1,
    ensures
        r@.len() == fitnesses@.len(),
        r@.to_multiset() == fitnesses@.to_multiset(),
        forall|i: int, j: int| 0 <= i < j < r@.len() ==> ranked_before(r@[i], r@[j]),
        forall|i: int| 0 <= i < r@.len() ==> fitnesses@.contains(#[trigger] r@[i]),
{
    broadcast use vstd::seq_lib::group_to_multiset_ensures;

    let mut out: Vec<LengthFitness> = Vec::new();
    let mut n: usize = 0;
    while n < fitnesses.len()
        invariant
            n <= fitnesses@.len(),
            forall|i: int, j: int|
                0 <= i < j < fitnesses@.len() ==> (#[trigger] fitnesses@[i]).length != (
                #[trigger] fitnesses@[j]).length,
            forall|i: int|
                0 <= i < fitnesses@.len() ==> (#[trigger] fitnesses@[i]).fitness.den >= 1,
            out@.len() == n,
            out@.to_multiset() == fitnesses@.take(n as int).to_multiset(),
            forall|i: int, j: int| 0 <= i < j < out@.len() ==> ranked_before(out@[i], out@[j]),
            forall|i: int|
                0 <= i < out@.len() ==> fitnesses@.take(n as int).contains(#[trigger] out@[i]),
        decreases fitnesses@.len() - n,
    {
        let x = fitnesses[n];
        let mut idx: usize = 0;
        while idx < out.len() && ranked_before_exec(&out[idx], &x)
            invariant
                idx <= out@.len(),
                forall|i: int| 0 <= i < idx ==> ranked_before(#[trigger] out@[i], x),
            decreases out@.len() - idx,
        {
            idx = idx + 1;
        }
        let ghost olds = out@;
        out.insert(idx, x);
        proof {
            let s = out@;
            assert(s == olds.insert(idx as int, x));
            // Multiset bookkeeping: inserting anywhere adds one occurrence.
            vstd::seq_lib::to_multiset_insert(olds, idx as int, x);
            assert(fitnesses@.take(n + 1) =~= fitnesses@.take(n as int).push(fitnesses@[n as int]));
            vstd::seq_lib::to_multiset_build(fitnesses@.take(n as int), fitnesses@[n as int]);
            assert(s.to_multiset() == fitnesses@.take(n + 1).to_multiset());
            // Every element of the new prefix sits somewhere in the input.
            let pre = fitnesses@.take(n + 1);
            assert forall|i: int| 0 <= i < s.len() implies pre.contains(#[trigger] s[i]) by {
                if i < idx {
                    let j = choose|j: int|
                        0 <= j < fitnesses@.take(n as int).len() && fitnesses@.take(n as int)[j]
                            == olds[i];
                    assert(pre[j] == s[i]);
                } else if i == idx {
                    assert(pre[n as int] == s[i]);
                } else {
                    let j = choose|j: int|
                        0 <= j < fitnesses@.take(n as int).len() && fitnesses@.take(n as int)[j]
                            == olds[i - 1];
                    assert(pre[j] == s[i]);
                }
            }
            // Sortedness: the new element sits between its neighbours.
            if idx < olds.len() {
                assert(!ranked_before(olds[idx as int], x));
                let j0 = choose|j: int|
                    0 <= j < fitnesses@.take(n as int).len() && fitnesses@.take(n as int)[j]
                        == olds[idx as int];
                assert(fitnesses@[j0] == olds[idx as int] && 0 <= j0 < n);
                assert(olds[idx as int].length != x.length);
                lemma_ranked_before_total(olds[idx as int], x);
                assert(ranked_before(x, olds[idx as int]));
            }
            assert forall|i: int, j: int| 0 <= i < j < s.len() implies ranked_before(
                s[i],
                s[j],
            ) by {
                if j < idx {
                    assert(s[i] == olds[i] && s[j] == olds[j]);
                } else if i > idx {
                    assert(s[i] == olds[i - 1] && s[j] == olds[j - 1]);
                } else if i < idx && j == idx {
                    assert(s[i] == olds[i] && s[j] == x);
                } else if i < idx && j > idx {
                    assert(s[i] == olds[i] && s[j] == olds[j - 1]);
                } else if i == idx && j > idx {
                    assert(s[i] == x && s[j] == olds[j - 1]);
                    assert(ranked_before(x, olds[idx as int]));
                    if j - 1 > idx {
                        let ja = choose|t: int|
                            0 <= t < fitnesses@.take(n as int).len() && fitnesses@.take(n as int)[t]
                                == olds[idx as int];
                        let jb = choose|t: int|
                            0 <= t < fitnesses@.take(n as int).len() && fitnesses@.take(n as int)[t]
                                == olds[j - 1];
                        assert(fitnesses@[ja] == olds[idx as int] && 0 <= ja < n);
                        assert(fitnesses@[jb] == olds[j - 1] && 0 <= jb < n);
                        lemma_ranked_before_trans(x, olds[idx as int], olds[j - 1]);
                    }
                }
            }
        }
        n = n + 1;
    }
    proof {
        assert(fitnesses@.take(fitnesses@.len() as int) =~= fitnesses@);
    }
    out
}

/// The fitness of key lengths `a` and `b` are equal as rationals.
pub open spec fn fit_eq(text: Seq<u8>, m: int, a: int, b: int) -> bool {
    fit_num(text, a) * fit_den(b, m) == fit_num(text, b) * fit_den(a, m)
}

/// A candidate key length has a strictly positive coincidence count, so it
/// is shorter than the text.
pub proof fn lemma_candidate_positive(text: Seq<u8>, m: int, k: int)
    requires
        is_candidate(text, m, k),
    ensures
        1 <= k <= m,
        fit_num(text, k) > 0,
        k < text.len(),
{
    assert(fit_lt(text, m, k - 1, k));
    crate::hist::lemma_coincidence_nonneg(text, k - 1);
    crate::hist::lemma_coincidence_nonneg(text, k);
    if k - 1 >= 1 {
        lemma_den_spec_pos(k - 1, m);
    }
    lemma_den_spec_pos(k, m);
    let a = fit_num(text, k - 1);
    let b = fit_den(k, m);
    let c = fit_num(text, k);
    let d = fit_den(k - 1, m);
    assert(c > 0) by (nonlinear_arith)
        requires
            a >= 0,
            b >= 1,
            d >= 1,
            a * b < c * d,
    ;
}

/// Scan a list of (length, fitness) pairs and return the length of the
/// first entry attaining the maximum fitness, or zero when every entry has
/// fitness zero.
pub fn get_max_fitnessed_key_length(fitnesses: &Vec<LengthFitness>) -> (r: usize)
    requires
        forall|i: int| 0 <= i < fitnesses@.len() ==> (#[trigger] fitnesses@[i]).fitness.den >= 1,
    ensures
        (forall|i: int|
            0 <= i < fitnesses@.len() ==> (#[trigger] fitnesses@[i]).fitness.num == 0) ==> r == 0,
        (exists|i: int|
            0 <= i < fitnesses@.len() && (#[trigger] fitnesses@[i]).fitness.num > 0) ==> exists|
            i: int,
        |
            0 <= i < fitnesses@.len() && r == (#[trigger] fitnesses@[i]).length && (forall|j: int|
                0 <= j < fitnesses@.len() ==> rat_le(
                    (#[trigger] fitnesses@[j]).fitness,
                    fitnesses@[i].fitness,
                )) && (forall|j: int|
                0 <= j < i ==> rat_lt((#[trigger] fitnesses@[j]).fitness, fitnesses@[i].fitness)),
{
    let mut max_fitness = Fitness { num: 0, den: 1 };
    let mut max_len: usize = 0;
    let ghost mut bi: int = -1;
    let mut idx: usize = 0;
    while idx < fitnesses.len()
        invariant
            forall|i: int|
                0 <= i < fitnesses@.len() ==> (#[trigger] fitnesses@[i]).fitness.den >= 1,
            idx <= fitnesses@.len(),
            bi >= -1,
            bi == -1 ==> max_len == 0 && max_fitness == (Fitness { num: 0u64, den: 1u64 }) && (
            forall|j: int| 0 <= j < idx ==> (#[trigger] fitnesses@[j]).fitness.num == 0),
            bi >= 0 ==> 0 <= bi < idx && max_len == fitnesses@[bi].length && max_fitness
                == fitnesses@[bi].fitness && max_fitness.num > 0 && (forall|j: int|
                0 <= j < idx ==> rat_le((#[trigger] fitnesses@[j]).fitness, max_fitness)) && (
            forall|j: int| 0 <= j < bi ==> rat_lt((#[trigger] fitnesses@[j]).fitness, max_fitness)),
        decreases fitnesses@.len() - idx,
    {
        let cur = fitnesses[idx];
        if fitness_lt(&max_fitness, &cur.fitness) {
            proof {
                assert(rat_lt(max_fitness, cur.fitness));
                if bi == -1 {
                    assert(cur.fitness.num >= 1) by (nonlinear_arith)
                        requires
                            max_fitness.num == 0,
                            max_fitness.den == 1,
                            max_fitness.num * cur.fitness.den < cur.fitness.num * max_fitness.den,
                    ;
                    assert forall|j: int| 0 <= j < idx implies rat_lt(
                        (#[trigger] fitnesses@[j]).fitness,
                        cur.fitness,
                    ) by {
                        let fj = fitnesses@[j].fitness;
                        assert(fj.num == 0);
                        assert(fj.den >= 1);
                        assert(cur.fitness.num * fj.den > 0) by (nonlinear_arith)
                            requires
                                cur.fitness.num >= 1,
                                fj.den >= 1,
                        ;
                        assert(fj.num * cur.fitness.den == 0) by (nonlinear_arith)
                            requires
                                fj.num == 0,
                        ;
                    }
                } else {
                    assert(0 <= bi < fitnesses@.len());
                    assert((#[trigger] fitnesses@[bi]).fitness.den >= 1);
                    assert(max_fitness.den >= 1 && max_fitness.num >= 1);
                    assert(cur.fitness.num > 0) by (nonlinear_arith)
                        requires
                            max_fitness.num >= 1,
                            cur.fitness.den >= 1,
                            max_fitness.den >= 1,
                            cur.fitness.num >= 0,
                            max_fitness.num * cur.fitness.den < cur.fitness.num
                                * max_fitness.den,
                    ;
                    assert forall|j: int| 0 <= j < idx implies rat_lt(
                        (#[trigger] fitnesses@[j]).fitness,
                        cur.fitness,
                    ) by {
                        lemma_rat_compose(fitnesses@[j].fitness, max_fitness, cur.fitness);
                    }
                }
            }
            max_fitness = cur.fitness;
            max_len = cur.length;
            proof {
                bi = idx as int;
            }
        } else {
            proof {
                if bi == -1 {
                    assert(cur.fitness.num == 0) by (nonlinear_arith)
                        requires
                            max_fitness.num == 0,
                            max_fitness.den == 1,
                            cur.fitness.num >= 0,
                            !(max_fitness.num * cur.fitness.den < cur.fitness.num
                                * max_fitness.den),
                    ;
                }
            }
        }
        idx = idx + 1;
    }
    proof {
        if bi >= 0 {
            assert(0 <= bi < fitnesses@.len() && max_len == (#[trigger] fitnesses@[bi]).length && (
            forall|j: int|
                0 <= j < fitnesses@.len() ==> rat_le(
                    (#[trigger] fitnesses@[j]).fitness,
                    fitnesses@[bi].fitness,
                )) && (forall|j: int|
                0 <= j < bi ==> rat_lt((#[trigger] fitnesses@[j]).fitness, fitnesses@[bi].fitness)));
            assert(exists|i: int|
                0 <= i < fitnesses@.len() && max_len == (#[trigger] fitnesses@[i]).length && (
                forall|j: int|
                    0 <= j < fitnesses@.len() ==> rat_le(
                        (#[trigger] fitnesses@[j]).fitness,
                        fitnesses@[i].fitness,
                    )) && (forall|j: int|
                    0 <= j < i ==> rat_lt((#[trigger] fitnesses@[j]).fitness, fitnesses@[i].fitness)));
        }
    }
    max_len
}

/// Estimate the key length of `text`: compute the candidate lengths up to
/// `max_key_length`, rank them, and return the one with the greatest
/// fitness, the smallest such length on a tie.  Fails when no candidate
/// length exists (the text is too short relative to the probed range).
pub fn guess_key_length(text: &[u8], max_key_length: usize) -> (r: Result<usize, XorError>)
    requires
        max_key_length <= 0x7fff_ffff,
    ensures
        r is Ok <==> exists|k: int| is_candidate(text@, max_key_length as int, k),
        r matches Err(e) ==> e is AnalysisError,
        r matches Ok(k) ==> {
            &&& is_candidate(text@, max_key_length as int, k as int)
            &&& forall|k2: int|
                is_candidate(text@, max_key_length as int, k2) ==> !fit_lt(
                    text@,
                    max_key_length as int,
                    k as int,
                    k2,
                )
            &&& forall|k2: int|
                is_candidate(text@, max_key_length as int, k2) && fit_eq(
                    text@,
                    max_key_length as int,
                    k as int,
                    k2,
                ) ==> k as int <= k2
        },
{
    let ghost m = max_key_length as int;
    let fitnesses = calculate_fitnesses(text, max_key_length);
    if fitnesses.len() == 0 {
        proof {
            assert forall|k: int| !is_candidate(text@, m, k) by {
                if is_candidate(text@, m, k) {
                    assert(contains_length(fitnesses@, k));
                }
            }
        }
        return Err(
            XorError::AnalysisError {
                msg: "No candidates for key length found! Too small file?".to_owned(),
            },
        );
    }
    proof {
        assert forall|i: int| 0 <= i < fitnesses@.len() implies (#[trigger] fitnesses@[i]).fitness.den
            >= 1 by {
            lemma_candidate_positive(text@, m, fitnesses@[i].length as int);
            lemma_den_spec_pos(fitnesses@[i].length as int, m);
        }
    }
    let sorted = sort_fitnesses(&fitnesses);
    proof {
        assert forall|i: int|
            0 <= i < sorted@.len() implies (is_candidate(
            text@,
            m,
            (#[trigger] sorted@[i]).length as int,
        ) && is_fitness_of(sorted@[i].fitness, text@, sorted@[i].length as int, m)
            && sorted@[i].fitness.den >= 1) by {
            assert(fitnesses@.contains(sorted@[i]));
            let j = choose|j: int| 0 <= j < fitnesses@.len() && fitnesses@[j] == sorted@[i];
            assert(fitnesses@[j] == sorted@[i]);
        }
    }
    let best = get_max_fitnessed_key_length(&sorted);
    proof {
        let e0 = fitnesses@[0];
        lemma_candidate_positive(text@, m, e0.length as int);
        assert(e0.fitness.num > 0);
        assert(fitnesses@.contains(e0));
        vstd::seq_lib::to_multiset_contains(fitnesses@, e0);
        vstd::seq_lib::to_multiset_contains(sorted@, e0);
        assert(sorted@.contains(e0));
        let i0 = choose|i: int| 0 <= i < sorted@.len() && sorted@[i] == e0;
        assert(0 <= i0 < sorted@.len() && (#[trigger] sorted@[i0]).fitness.num > 0);
        let wi = choose|i: int|
            0 <= i < sorted@.len() && best == (#[trigger] sorted@[i]).length && (forall|j: int|
                0 <= j < sorted@.len() ==> rat_le(
                    (#[trigger] sorted@[j]).fitness,
                    sorted@[i].fitness,
                )) && (forall|j: int|
                0 <= j < i ==> rat_lt((#[trigger] sorted@[j]).fitness, sorted@[i].fitness));
        assert(best == sorted@[wi].length);
        assert(is_candidate(text@, m, best as int));
        assert forall|k2: int| is_candidate(text@, m, k2) implies !fit_lt(
            text@,
            m,
            best as int,
            k2,
        ) by {
            assert(contains_length(fitnesses@, k2));
            let ci = choose|i: int| 0 <= i < fitnesses@.len() && fitnesses@[i].length == k2;
            let e = fitnesses@[ci];
            assert(fitnesses@.contains(e));
            vstd::seq_lib::to_multiset_contains(fitnesses@, e);
            vstd::seq_lib::to_multiset_contains(sorted@, e);
            assert(sorted@.contains(e));
            let si = choose|i: int| 0 <= i < sorted@.len() && sorted@[i] == e;
            assert(rat_le(sorted@[si].fitness, sorted@[wi].fitness));
        }
        assert forall|k2: int| is_candidate(text@, m, k2) && fit_eq(text@, m, best as int, k2)
            implies best as int <= k2 by {
            assert(contains_length(fitnesses@, k2));
            let ci = choose|i: int| 0 <= i < fitnesses@.len() && fitnesses@[i].length == k2;
            let e = fitnesses@[ci];
            assert(fitnesses@.contains(e));
            vstd::seq_lib::to_multiset_contains(fitnesses@, e);
            vstd::seq_lib::to_multiset_contains(sorted@, e);
            assert(sorted@.contains(e));
            let si = choose|i: int| 0 <= i < sorted@.len() && sorted@[i] == e;
            if si < wi {
                assert(rat_lt(sorted@[si].fitness, sorted@[wi].fitness));
                assert(false);
            } else if si > wi {
                assert(ranked_before(sorted@[wi], sorted@[si]));
            }
        }
    }
    Ok(best)
}

/// Number of entries among the first `upto` of `s` whose key length is a
/// multiple of `d`, counting divisors `d >= 3` only.
pub open spec fn divisor_count(s: Seq<LengthFitness>, d: int, upto: int) -> int
    decreases upto,
{
    if upto <= 0 {
        0
    } else {
        divisor_count(s, d, upto - 1) + if 3 <= d <= s[upto - 1].length && (s[upto - 1].length as int) % d
            == 0 {
            1int
        } else {
            0int
        }
    }
}

/// A divisor never gathers more votes than there are entries.
proof fn lemma_divisor_count_le(s: Seq<LengthFitness>, d: int, upto: int)
    requires
        upto >= 0,
    ensures
        0 <= divisor_count(s, d, upto) <= upto,
    decreases upto,
{
    if upto > 0 {
        lemma_divisor_count_le(s, d, upto - 1);
    }
}

/// Count, for every number up to `max_key_length`, how many of the given
/// candidate key lengths it divides.  Entry `d` of the result holds the
/// votes for `d`, counting divisors `d >= 3` only.
pub fn divisor_votes(fitnesses: &Vec<LengthFitness>, max_key_length: usize) -> (r: Vec<u64>)
    requires
        max_key_length <= 0x7fff_ffff,
        forall|i: int|
            0 <= i < fitnesses@.len() ==> (#[trigger] fitnesses@[i]).length <= max_key_length,
    ensures
        r@.len() == max_key_length + 1,
        forall|d: int|
            0 <= d < r@.len() ==> r@[d] == divisor_count(
                fitnesses@,
                d,
                fitnesses@.len() as int,
            ),
{
    let mut divisors_counts: Vec<u64> = vec![0u64; max_key_length + 1];
    let flen = fitnesses.len();
    let mut i: usize = 0;
    while i < fitnesses.len()
        invariant
            max_key_length <= 0x7fff_ffff,
            flen == fitnesses@.len(),
            forall|t: int|
                0 <= t < fitnesses@.len() ==> (#[trigger] fitnesses@[t]).length <= max_key_length,
            i <= fitnesses@.len(),
            divisors_counts@.len() == max_key_length + 1,
            forall|d: int|
                0 <= d < divisors_counts@.len() ==> #[trigger] divisors_counts@[d]
                    == divisor_count(fitnesses@, d, i as int),
        decreases fitnesses@.len() - i,
    {
        let key_length = fitnesses[i].length;
        let mut number: usize = 3;
        while number <= key_length
            invariant
                key_length == fitnesses@[i as int].length,
                i < fitnesses@.len(),
                fitnesses@.len() == flen,
                key_length <= max_key_length,
                key_length <= 0x7fff_ffff,
                3 <= number,
                number <= key_length + 1 || number == 3,
                divisors_counts@.len() == max_key_length + 1,
                forall|d: int|
                    0 <= d < divisors_counts@.len() ==> #[trigger] divisors_counts@[d]
                        == divisor_count(fitnesses@, d, i as int) + if 3 <= d < number
                        && (key_length as int) % d == 0 {
                        1int
                    } else {
                        0int
                    },
            decreases key_length + 1 - number,
        {
            if key_length % number == 0 {
                let cur = divisors_counts[number];
                proof {
                    lemma_divisor_count_le(fitnesses@, number as int, i as int);
                }
                divisors_counts.set(number, cur + 1);
            }
            number = number + 1;
        }
        proof {
            assert forall|d: int| 0 <= d < divisors_counts@.len() implies #[trigger] divisors_counts@[d]
                == divisor_count(fitnesses@, d, i + 1) by {
                assert(divisor_count(fitnesses@, d, i + 1) == divisor_count(fitnesses@, d, i as int)
                    + if 3 <= d <= key_length && (key_length as int) % d == 0 {
                    1int
                } else {
                    0int
                });
            }
        }
        i = i + 1;
    }
    divisors_counts
}

/// The largest vote count among the entries below `ub`.
pub open spec fn max_vote_below(v: Seq<u64>, ub: int) -> int
    decreases ub,
{
    if ub <= 0 {
        0
    } else {
        let m = max_vote_below(v, ub - 1);
        if v[ub - 1] > m {
            v[ub - 1] as int
        } else {
            m
        }
    }
}

/// Number of entries below `upto` whose vote count equals `mx`.
pub open spec fn attain_count(v: Seq<u64>, mx: int, upto: int) -> int
    decreases upto,
{
    if upto <= 0 {
        0
    } else {
        attain_count(v, mx, upto - 1) + if v[upto - 1] == mx {
            1int
        } else {
            0int
        }
    }
}

/// The attain count never falls when the scanned range grows.
proof fn lemma_attain_count_mono(v: Seq<u64>, mx: int, a: int, b: int)
    requires
        a <= b,
    ensures
        attain_count(v, mx, a) <= attain_count(v, mx, b),
    decreases b - a,
{
    if a < b {
        lemma_attain_count_mono(v, mx, a, b - 1);
    }
}

/// Pick the most-voted divisors: the smallest indices whose vote count
/// attains the maximum, at most three of them, in ascending order.
pub fn most_voted_divisors(votes: &Vec<u64>) -> (r: Vec<usize>)
    requires
        votes@.len() >= 1,
    ensures
        forall|i: int|
            0 <= i < r@.len() ==> 0 <= #[trigger] r@[i] < votes@.len() && votes@[r@[i] as int]
                == max_vote_below(votes@, votes@.len() as int),
        forall|i: int, j: int| 0 <= i < j < r@.len() ==> r@[i] < r@[j],
        r@.len() == (if attain_count(votes@, max_vote_below(votes@, votes@.len() as int), votes@.len() as int) < 3 {
            attain_count(votes@, max_vote_below(votes@, votes@.len() as int), votes@.len() as int)
        } else {
            3int
        }),
        forall|d: int|
            0 <= d < votes@.len() && votes@[d] == max_vote_below(votes@, votes@.len() as int)
                ==> (exists|i: int| 0 <= i < r@.len() && #[trigger] r@[i] == d) || (r@.len() == 3
                && d > r@[2]),
{
    let ghost mx = max_vote_below(votes@, votes@.len() as int);
    let mut max_divisors: u64 = 0;
    let mut d: usize = 0;
    while d < votes.len()
        invariant
            d <= votes@.len(),
            max_divisors == max_vote_below(votes@, d as int),
        decreases votes@.len() - d,
    {
        if votes[d] > max_divisors {
            max_divisors = votes[d];
        }
        d = d + 1;
    }
    let mut chosen: Vec<usize> = Vec::new();
    let mut number: usize = 0;
    while number < votes.len()
        invariant
            number <= votes@.len(),
            max_divisors == mx,
            mx == max_vote_below(votes@, votes@.len() as int),
            chosen@.len() <= 2,
            chosen@.len() == attain_count(votes@, mx, number as int),
            forall|i: int|
                0 <= i < chosen@.len() ==> 0 <= #[trigger] chosen@[i] < number && votes@[chosen@[i] as int]
                    == mx,
            forall|i: int, j: int| 0 <= i < j < chosen@.len() ==> chosen@[i] < chosen@[j],
            forall|dd: int|
                0 <= dd < number && votes@[dd] == mx ==> exists|i: int|
                    0 <= i < chosen@.len() && #[trigger] chosen@[i] == dd,
        decreases votes@.len() - number,
    {
        if votes[number] == max_divisors {
            let ghost oldc = chosen@;
            chosen.push(number);
            proof {
                assert(chosen@ == oldc.push(number));
                assert forall|dd: int|
                    0 <= dd < number + 1 && votes@[dd] == mx implies exists|i: int|
                        0 <= i < chosen@.len() && #[trigger] chosen@[i] == dd by {
                    if dd == number {
                        assert(chosen@[chosen@.len() - 1] == dd);
                    } else {
                        let i = choose|i: int| 0 <= i < oldc.len() && oldc[i] == dd;
                        assert(chosen@[i] == dd);
                    }
                }
            }
            if chosen.len() == 3 {
                proof {
                    lemma_attain_count_mono(votes@, mx, number + 1, votes@.len() as int);
                }
                return chosen;
            }
        }
        number = number + 1;
    }
    chosen
}

/// The best-ranked candidates, at most ten of them, re-sorted by ascending
/// key length for reporting.
pub fn top_fitnesses(sorted: &Vec<LengthFitness>) -> (r: Vec<LengthFitness>)
    requires
        forall|i: int, j: int|
            0 <= i < j < sorted@.len() ==> (#[trigger] sorted@[i]).length != (
            #[trigger] sorted@[j]).length,
    ensures
        r@.len() == (if sorted@.len() < 10 {
            sorted@.len() as int
        } else {
            10int
        }),
        r@.to_multiset() == sorted@.take(
            if sorted@.len() < 10 {
                sorted@.len() as int
            } else {
                10int
            },
        ).to_multiset(),
        forall|i: int, j: int| 0 <= i < j < r@.len() ==> r@[i].length < r@[j].length,
{
    let ghost cut: int = if sorted@.len() < 10 {
        sorted@.len() as int
    } else {
        10int
    };
    let mut out: Vec<LengthFitness> = Vec::new();
    let mut n: usize = 0;
    proof {
        assert(out@ =~= sorted@.take(0));
    }
    while n < sorted.len() && n < 10
        invariant
            forall|i: int, j: int|
                0 <= i < j < sorted@.len() ==> (#[trigger] sorted@[i]).length != (
                #[trigger] sorted@[j]).length,
            cut == (if sorted@.len() < 10 {
                sorted@.len() as int
            } else {
                10int
            }),
            n <= cut,
            out@.len() == n,
            out@.to_multiset() == sorted@.take(n as int).to_multiset(),
            forall|i: int, j: int| 0 <= i < j < out@.len() ==> out@[i].length < out@[j].length,
            forall|i: int|
                0 <= i < out@.len() ==> sorted@.take(n as int).contains(#[trigger] out@[i]),
        decreases sorted@.len() - n,
    {
        let x = sorted[n];
        let mut idx: usize = 0;
        while idx < out.len() && out[idx].length < x.length
            invariant
                idx <= out@.len(),
                forall|i: int| 0 <= i < idx ==> (#[trigger] out@[i]).length < x.length,
            decreases out@.len() - idx,
        {
            idx = idx + 1;
        }
        let ghost olds = out@;
        out.insert(idx, x);
        proof {
            let s = out@;
            assert(s == olds.insert(idx as int, x));
            vstd::seq_lib::to_multiset_insert(olds, idx as int, x);
            assert(sorted@.take(n + 1) =~= sorted@.take(n as int).push(sorted@[n as int]));
            vstd::seq_lib::to_multiset_build(sorted@.take(n as int), sorted@[n as int]);
            assert(s.to_multiset() == sorted@.take(n + 1).to_multiset());
            let pre = sorted@.take(n + 1);
            assert forall|i: int| 0 <= i < s.len() implies pre.contains(#[trigger] s[i]) by {
                if i < idx {
                    let j = choose|j: int|
                        0 <= j < sorted@.take(n as int).len() && sorted@.take(n as int)[j]
                            == olds[i];
                    assert(pre[j] == s[i]);
                } else if i == idx {
                    assert(pre[n as int] == s[i]);
                } else {
                    let j = choose|j: int|
                        0 <= j < sorted@.take(n as int).len() && sorted@.take(n as int)[j]
                            == olds[i - 1];
                    assert(pre[j] == s[i]);
                }
            }
            if idx < olds.len() {
                let j0 = choose|j: int|
                    0 <= j < sorted@.take(n as int).len() && sorted@.take(n as int)[j]
                        == olds[idx as int];
                assert(sorted@[j0] == olds[idx as int] && 0 <= j0 < n);
                assert(olds[idx as int].length != x.length);
                assert(x.length < olds[idx as int].length);
            }
            assert forall|i: int, j: int| 0 <= i < j < s.len() implies s[i].length
                < s[j].length by {
                if j < idx {
                    assert(s[i] == olds[i] && s[j] == olds[j]);
                } else if i > idx {
                    assert(s[i] == olds[i - 1] && s[j] == olds[j - 1]);
                } else if i < idx && j == idx {
                    assert(s[i] == olds[i] && s[j] == x);
                } else if i < idx && j > idx {
                    assert(s[i] == olds[i] && s[j] == olds[j - 1]);
                } else if i == idx && j > idx {
                    assert(s[i] == x && s[j] == olds[j - 1]);
                }
            }
        }
        n = n + 1;
    }
    out
}

} // verus!
