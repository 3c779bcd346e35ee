//! The generational selection rules: rank a population by fitness, keep the
//! stronger half, and rebuild the next generation from one mutated clone and
//! one unmutated copy of each survivor — so the population size never
//! changes.
//!
//! Fitness is a `(best forward score, survival time)` pair, compared
//! lexicographically, descending; ties keep their original order, so the
//! ranking is the unique one a stable descending sort produces.
use vstd::prelude::*;

verus! {

/// Whether the genome at index `a` ranks strictly before the one at index
/// `b`: higher score first, then longer survival, then earlier index.
pub open spec fn rank_before(f: Seq<(i32, usize)>, a: int, b: int) -> bool {
    let fa = f[a];
    let fb = f[b];
    ||| fa.0 > fb.0
    ||| (fa.0 == fb.0 && fa.1 > fb.1)
    ||| (fa.0 == fb.0 && fa.1 == fb.1 && a < b)
}

/// Exec comparison mirroring `rank_before`.
fn ranks_before(f: &Vec<(i32, usize)>, a: usize, b: usize) -> (r: bool)
    requires
        a < f@.len(),
        b < f@.len(),
    ensures
        r == rank_before(f@, a as int, b as int),
{
    let fa = f[a];
    let fb = f[b];
    if fa.0 != fb.0 {
        fa.0 > fb.0
    } else if fa.1 != fb.1 {
        fa.1 > fb.1
    } else {
        a < b
    }
}

/// The ranking is a strict total order on distinct indices.
proof fn lemma_rank_total(f: Seq<(i32, usize)>, a: int, b: int)
    requires
        a != b,
    ensures
        rank_before(f, a, b) <==> !rank_before(f, b, a),
{
}

/// The indices `0 .. fitness.len()`, ordered so that fitter genomes come
/// first: descending by score, then by survival time, with ties keeping
/// their original order.
pub fn rank_indices(fitness: &Vec<(i32, usize)>) -> (r: Vec<usize>)
    ensures
        r@.len() == fitness@.len(),
        forall|i: int, j: int|
            #![trigger r@[i], r@[j]]
            0 <= i < j < r@.len() ==> rank_before(fitness@, r@[i] as int, r@[j] as int),
        forall|i: int| 0 <= i < r@.len() ==> (#[trigger] r@[i]) < fitness@.len(),
        forall|v: int| 0 <= v < fitness@.len() ==> #[trigger] r@.contains(v as usize),
{
    let n = fitness.len();
    let mut r: Vec<usize> = Vec::new();
    let mut i: usize = 0;
    while i < n
        invariant
            n == fitness@.len(),
            0 <= i <= n,
            r@.len() == i,
            forall|k: int, l: int|
                #![trigger r@[k], r@[l]]
                0 <= k < l < r@.len() ==> rank_before(fitness@, r@[k] as int, r@[l] as int),
            forall|k: int| 0 <= k < r@.len() ==> (#[trigger] r@[k]) < i,
            forall|v: int| 0 <= v < i ==> #[trigger] r@.contains(v as usize),
        decreases n - i,
    {
        let mut pos: usize = 0;
        while pos < r.len() && ranks_before(fitness, r[pos], i)
            invariant
                n == fitness@.len(),
                0 <= i < n,
                r@.len() == i,
                forall|k: int| 0 <= k < r@.len() ==> (#[trigger] r@[k]) < i,
                0 <= pos <= r@.len(),
                forall|k: int| 0 <= k < pos ==> rank_before(fitness@, r@[k] as int, i as int),
            decreases r@.len() - pos,
        {
            pos = pos + 1;
        }
        let ghost old_r = r@;
        proof {
            if pos < r@.len() {
                lemma_rank_total(fitness@, r@[pos as int] as int, i as int);
            }
        }
        r.insert(pos, i);
        proof {
            old_r.insert_ensures(pos as int, i);
            assert(r@ == old_r.insert(pos as int, i));
            assert(r@[pos as int] == i);
            assert forall|l: int| pos < l < r@.len() implies r@[l] == old_r[l - 1] by {
                assert(old_r.insert(pos as int, i)[(l - 1) + 1] == old_r[l - 1]);
            }
            assert forall|k: int, l: int|
                0 <= k < l < r@.len() implies rank_before(
                fitness@,
                r@[k] as int,
                r@[l] as int,
            ) by {
                if k < pos && l < pos {
                    assert(r@[k] == old_r[k] && r@[l] == old_r[l]);
                } else if k < pos && l == pos {
                    assert(r@[k] == old_r[k] && r@[l] == i);
                } else if k < pos && l > pos {
                    assert(r@[k] == old_r[k] && r@[l] == old_r[l - 1]);
                    if l - 1 >= pos {
                        lemma_rank_total(fitness@, old_r[l - 1] as int, i as int);
                        assert(rank_before(fitness@, i as int, old_r[l - 1] as int));
                    }
                } else if k == pos {
                    assert(r@[k] == i && r@[l] == old_r[l - 1]);
                    lemma_rank_total(fitness@, old_r[l - 1] as int, i as int);
                } else {
                    assert(r@[k] == old_r[k - 1] && r@[l] == old_r[l - 1]);
                }
            }
            assert forall|v: int| 0 <= v < i + 1 implies #[trigger] r@.contains(v as usize) by {
                if v == i {
                    assert(r@[pos as int] == i);
                } else {
                    assert(old_r.contains(v as usize));
                    let w = choose|w: int| 0 <= w < old_r.len() && old_r[w] == v as usize;
                    if w < pos {
                        assert(r@[w] == v as usize);
                    } else {
                        assert(r@[w + 1] == v as usize);
                    }
                }
            }
        }
        i = i + 1;
    }
    r
}

/// Whether any plan entry draws from parent index `v`.
pub open spec fn plan_contains(r: Seq<(usize, bool)>, v: usize) -> bool {
    exists|l: int| 0 <= l < r.len() && (#[trigger] r[l]).0 == v
}

/// The plan for the next generation: for each of the `n / 2` fittest
/// genomes, in rank order, one mutated clone (`true`) and one unmutated copy
/// (`false`).  Every parent that appears ranks before every population
/// index that does not: the weaker half is discarded.
pub fn next_generation_plan(fitness: &Vec<(i32, usize)>) -> (r: Vec<(usize, bool)>)
    requires
        fitness@.len() % 2 == 0,
    ensures
        r@.len() == fitness@.len(),
        forall|k: int|
            0 <= k < r@.len() ==> (#[trigger] r@[k]).0 < fitness@.len() && r@[k].1 == (k % 2 == 0),
        forall|k: int, l: int|
            #![trigger r@[2 * k], r@[2 * l]]
            0 <= 2 * k < 2 * l < r@.len() ==> rank_before(
                fitness@,
                r@[2 * k].0 as int,
                r@[2 * l].0 as int,
            ),
        forall|k: int|
            #![trigger r@[2 * k + 1]]
            0 <= k < r@.len() / 2 ==> r@[2 * k].0 == r@[2 * k + 1].0,
        forall|k: int, v: usize|
            #![trigger r@[2 * k], plan_contains(r@, v)]
            0 <= 2 * k < r@.len() && (v as int) < fitness@.len() && !plan_contains(r@, v)
                ==> rank_before(fitness@, r@[2 * k].0 as int, v as int),
{
    let ranked = rank_indices(fitness);
    let half = fitness.len() / 2;
    let mut r: Vec<(usize, bool)> = Vec::new();
    let mut k: usize = 0;
    while k < half
        invariant
            fitness@.len() % 2 == 0,
            half == fitness@.len() / 2,
            ranked@.len() == fitness@.len(),
            forall|a: int, b: int|
                #![trigger ranked@[a], ranked@[b]]
                0 <= a < b < ranked@.len() ==> rank_before(
                    fitness@,
                    ranked@[a] as int,
                    ranked@[b] as int,
                ),
            forall|a: int| 0 <= a < ranked@.len() ==> (#[trigger] ranked@[a]) < fitness@.len(),
            forall|v: int| 0 <= v < fitness@.len() ==> #[trigger] ranked@.contains(v as usize),
            0 <= k <= half,
            r@.len() == 2 * k,
            forall|l: int|
                0 <= l < r@.len() ==> (#[trigger] r@[l]).0 == ranked@[l / 2] && r@[l].1 == (l % 2
                    == 0),
        decreases half - k,
    {
        let idx = ranked[k];
        r.push((idx, true));
        r.push((idx, false));
        proof {
            assert(r@[2 * k as int].0 == ranked@[k as int]);
            assert(r@[2 * k as int + 1].0 == ranked@[k as int]);
        }
        k = k + 1;
    }
    proof {
        assert(r@.len() == 2 * (fitness@.len() / 2));
        assert(2 * (fitness@.len() / 2) == fitness@.len()) by {
            vstd::arithmetic::div_mod::lemma_fundamental_div_mod(fitness@.len() as int, 2);
        }
        assert forall|a: int, b: int| #![trigger r@[2 * a], r@[2 * b]] 0 <= 2 * a < 2 * b
            < r@.len() implies rank_before(fitness@, r@[2 * a].0 as int, r@[2 * b].0 as int) by {
            assert(r@[2 * a].0 == ranked@[(2 * a) / 2]);
            assert(r@[2 * b].0 == ranked@[(2 * b) / 2]);
            assert((2 * a) / 2 == a && (2 * b) / 2 == b) by {
                vstd::arithmetic::div_mod::lemma_div_multiples_vanish(a, 2);
                vstd::arithmetic::div_mod::lemma_div_multiples_vanish(b, 2);
            }
        }
        assert forall|k: int, v: usize|
            #![trigger r@[2 * k], plan_contains(r@, v)]
            0 <= 2 * k < r@.len() && (v as int) < fitness@.len() && !plan_contains(r@, v)
                implies rank_before(fitness@, r@[2 * k].0 as int, v as int) by {
            assert(ranked@.contains(((v as int) as usize)));
            assert(ranked@.contains(v));
            let m = choose|m: int| 0 <= m < ranked@.len() && ranked@[m] == v;
            assert((2 * k) / 2 == k) by {
                vstd::arithmetic::div_mod::lemma_div_multiples_vanish(k, 2);
            }
            assert(r@[2 * k].0 == ranked@[k]);
            if m < half {
                assert((2 * m) / 2 == m) by {
                    vstd::arithmetic::div_mod::lemma_div_multiples_vanish(m, 2);
                }
                assert(r@[2 * m].0 == ranked@[m]);
                assert(plan_contains(r@, v));
            } else {
                assert(k < m);
                assert(rank_before(fitness@, ranked@[k] as int, ranked@[m] as int));
            }
        }
        assert forall|l: int| #![trigger r@[2 * l + 1]] 0 <= l < r@.len() / 2 implies r@[2 * l].0 == r@[2
            * l + 1].0 by {
            assert(r@[2 * l].0 == ranked@[(2 * l) / 2]);
            assert(r@[2 * l + 1].0 == ranked@[(2 * l + 1) / 2]);
            assert((2 * l) / 2 == l) by {
                vstd::arithmetic::div_mod::lemma_div_multiples_vanish(l, 2);
            }
            assert((2 * l + 1) / 2 == l) by {
                vstd::arithmetic::div_mod::lemma_div_multiples_vanish_fancy(l, 1, 2);
            }
        }
    }
    r
}

} // verus!
