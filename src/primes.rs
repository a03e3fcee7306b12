//! The fixed-point loop that collects the prime implicants of every generation.
use vstd::prelude::*;
use crate::combine::{
    adjacent_merge, before, distinct_bits, find_prime_implicants, holds_bits, merge_of_sets,
    merged_before, merged_in_pairs, merges_before, push_unique, same_terms, widths_agree,
};
use crate::grouping::{
    is_grouping_of, lemma_bucket_member, lemma_input_member, lemma_next_bucket, sort_bits,
};
use crate::term::{
    copy_term, dont_cares, lemma_dont_cares_bounded, lemma_merge_counts, lemma_merge_symmetric,
    merge, mergeable, popcount, Bit, BitSet,
};

verus! {

/// The bit sequences of the terms of `s`.
pub open spec fn term_set(s: Seq<BitSet>) -> Set<Seq<Bit>> {
    Set::new(|b: Seq<Bit>| holds_bits(s, b))
}

/// The width of the terms of `s`, taken from its first term.
pub open spec fn width_of(s: Seq<BitSet>) -> nat {
    if s.len() > 0 {
        s[0].bits@.len()
    } else {
        0
    }
}

/// All merges of two terms of `g`.
pub open spec fn next_generation(g: Set<Seq<Bit>>) -> Set<Seq<Bit>> {
    Set::new(
        |t: Seq<Bit>|
            exists|a: Seq<Bit>, b: Seq<Bit>|
                g.contains(a) && g.contains(b) && #[trigger] merge(a, b) == Some(t),
    )
}

/// The `k`-th generation grown from `g`.
pub open spec fn generation(g: Set<Seq<Bit>>, k: nat) -> Set<Seq<Bit>>
    decreases k,
{
    if k == 0 {
        g
    } else {
        next_generation(generation(g, (k - 1) as nat))
    }
}

/// The terms of `g` that merge with no term of `g`.
pub open spec fn unmerged(g: Set<Seq<Bit>>) -> Set<Seq<Bit>> {
    g.filter(|a: Seq<Bit>| !exists|b: Seq<Bit>| g.contains(b) && #[trigger] mergeable(a, b))
}

/// The unmerged terms of `g` and of the `n` generations that follow it.
pub open spec fn primes_within(g: Set<Seq<Bit>>, n: nat) -> Set<Seq<Bit>>
    decreases n,
{
    if n == 0 {
        unmerged(g)
    } else {
        unmerged(g).union(primes_within(next_generation(g), (n - 1) as nat))
    }
}

/// Every term of `g` has width `w`.
pub open spec fn all_of_width(g: Set<Seq<Bit>>, w: nat) -> bool {
    forall|t: Seq<Bit>| #[trigger] g.contains(t) ==> t.len() == w
}

/// The `k`-th generation from terms of width `w` holds terms of width `w` with
/// at least `k` `DontCare` positions.
pub proof fn lemma_generation_dont_cares(g: Set<Seq<Bit>>, w: nat, k: nat)
    requires
        all_of_width(g, w),
    ensures
        all_of_width(generation(g, k), w),
        forall|t: Seq<Bit>| #[trigger] generation(g, k).contains(t) ==> dont_cares(t) >= k,
    decreases k,
{
    if k > 0 {
        lemma_generation_dont_cares(g, w, (k - 1) as nat);
        let prev = generation(g, (k - 1) as nat);
        assert forall|t: Seq<Bit>| #[trigger] generation(g, k).contains(t) implies t.len() == w
            && dont_cares(t) >= k by {
            let (a, b) = choose|a: Seq<Bit>, b: Seq<Bit>|
                prev.contains(a) && prev.contains(b) && #[trigger] merge(a, b) == Some(t);
            lemma_merge_counts(a, b);
        }
    }
}

/// From terms of width `w`, generation `w + 1` is empty: the fixed-point loop
/// stops after at most `w + 1` generations.
pub proof fn lemma_generations_end(g: Set<Seq<Bit>>, w: nat)
    requires
        all_of_width(g, w),
    ensures
        generation(g, w + 1) == Set::<Seq<Bit>>::empty(),
{
    lemma_generation_dont_cares(g, w, w + 1);
    assert forall|t: Seq<Bit>| !#[trigger] generation(g, w + 1).contains(t) by {
        if generation(g, w + 1).contains(t) {
            lemma_dont_cares_bounded(t);
        }
    }
    assert(generation(g, w + 1) =~= Set::<Seq<Bit>>::empty());
}

proof fn lemma_primes_of_empty(n: nat)
    ensures
        primes_within(Set::<Seq<Bit>>::empty(), n) == Set::<Seq<Bit>>::empty(),
    decreases n,
{
    let e = Set::<Seq<Bit>>::empty();
    assert(unmerged(e) =~= e);
    assert(next_generation(e) =~= e);
    if n > 0 {
        lemma_primes_of_empty((n - 1) as nat);
    }
    assert(primes_within(e, n) =~= e);
}

/// Within a popcount grouping of `s`, a term merges with a term of a
/// neighbouring bucket exactly when it merges with some term of `s`.
proof fn lemma_marked_iff_merges(groups: Seq<Vec<BitSet>>, s: Seq<BitSet>, k: int, p: int)
    requires
        is_grouping_of(groups, s),
        0 <= k < groups.len(),
        0 <= p < groups[k]@.len(),
    ensures
        merged_in_pairs(groups, k, p, groups.len() as int) <==> exists|y: Seq<Bit>|
            term_set(s).contains(y) && #[trigger] mergeable(groups[k]@[p].bits@, y),
{
    let n = groups.len() as int;
    let x = groups[k]@[p].bits@;
    if merged_in_pairs(groups, k, p, n) {
        if k + 1 < n && merges_before(x, groups[k + 1]@, groups[k + 1]@.len() as int) {
            let q = choose|q: int|
                0 <= q < groups[k + 1]@.len() && mergeable(x, (#[trigger] groups[k + 1]@[q]).bits@);
            let i = lemma_bucket_member(groups, s, k + 1, q);
            assert(term_set(s).contains(s[i].bits@));
        } else {
            let q = choose|q: int|
                0 <= q < groups[k - 1]@.len() && mergeable((#[trigger] groups[k - 1]@[q]).bits@, x);
            let i = lemma_bucket_member(groups, s, k - 1, q);
            lemma_merge_symmetric(groups[k - 1]@[q].bits@, x);
            assert(term_set(s).contains(s[i].bits@));
            assert(mergeable(x, s[i].bits@));
        }
    }
    if exists|y: Seq<Bit>| term_set(s).contains(y) && #[trigger] mergeable(x, y) {
        let y = choose|y: Seq<Bit>| term_set(s).contains(y) && #[trigger] mergeable(x, y);
        let i = choose|i: int| 0 <= i < s.len() && (#[trigger] s[i]).bits@ == y;
        let (k2, q) = lemma_input_member(groups, s, i);
        lemma_bucket_member(groups, s, k, p);
        lemma_merge_counts(x, y);
        if popcount(y) == popcount(x) + 1 {
            lemma_next_bucket(groups, s, k, k2);
            assert(mergeable(x, groups[k + 1]@[q].bits@));
            assert(merges_before(x, groups[k + 1]@, groups[k + 1]@.len() as int));
        } else {
            lemma_next_bucket(groups, s, k2, k);
            lemma_merge_symmetric(x, y);
            assert(mergeable(groups[k - 1]@[q].bits@, x));
            assert(merged_before(groups[k - 1]@, x, groups[k - 1]@.len() as int));
        }
    }
}

/// Within a popcount grouping of `s`, the merges of neighbouring buckets are
/// the next generation of `s`.
proof fn lemma_adjacent_is_next(groups: Seq<Vec<BitSet>>, s: Seq<BitSet>, t: Seq<Bit>)
    requires
        is_grouping_of(groups, s),
    ensures
        adjacent_merge(groups, t, groups.len() as int) <==> next_generation(term_set(s)).contains(t),
{
    let n = groups.len() as int;
    if adjacent_merge(groups, t, n) {
        let k = choose|k: int| 0 <= k && k + 1 < n && #[trigger] merge_of_sets(groups[k]@, groups[k + 1]@, t);
        let (p, q) = choose|p: int, q: int|
            0 <= p < groups[k]@.len() && 0 <= q < groups[k + 1]@.len() && merge(
                (#[trigger] groups[k]@[p]).bits@,
                (#[trigger] groups[k + 1]@[q]).bits@,
            ) == Some(t);
        let i = lemma_bucket_member(groups, s, k, p);
        let j = lemma_bucket_member(groups, s, k + 1, q);
        assert(term_set(s).contains(s[i].bits@));
        assert(term_set(s).contains(s[j].bits@));
        assert(merge(s[i].bits@, s[j].bits@) == Some(t));
    }
    if next_generation(term_set(s)).contains(t) {
        let (a, b) = choose|a: Seq<Bit>, b: Seq<Bit>|
            term_set(s).contains(a) && term_set(s).contains(b) && #[trigger] merge(a, b) == Some(t);
        let i = choose|i: int| 0 <= i < s.len() && (#[trigger] s[i]).bits@ == a;
        let j = choose|j: int| 0 <= j < s.len() && (#[trigger] s[j]).bits@ == b;
        let (ka, pa) = lemma_input_member(groups, s, i);
        let (kb, pb) = lemma_input_member(groups, s, j);
        lemma_merge_counts(a, b);
        lemma_merge_symmetric(a, b);
        if popcount(b) == popcount(a) + 1 {
            lemma_next_bucket(groups, s, ka, kb);
            assert(merge(groups[ka]@[pa].bits@, groups[ka + 1]@[pb].bits@) == Some(t));
            assert(merge_of_sets(groups[ka]@, groups[ka + 1]@, t));
        } else {
            lemma_next_bucket(groups, s, kb, ka);
            assert(merge(groups[kb]@[pb].bits@, groups[kb + 1]@[pa].bits@) == Some(t));
            assert(merge_of_sets(groups[kb]@, groups[kb + 1]@, t));
        }
    }
}

/// Some term of the buckets before position `(k, p)` is unused and has the
/// bits `s`.
pub open spec fn unused_before(g: Seq<Vec<BitSet>>, s: Seq<Bit>, k: int, p: int) -> bool {
    exists|k2: int, p2: int|
        0 <= k2 < g.len() && 0 <= p2 < g[k2]@.len() && before(k2, p2, k, p) && !(#[trigger] g[k2]@[
            p2]).used && g[k2]@[p2].bits@ == s
}

/// Adds to `primes` every unused term of the buckets whose bits it does not
/// hold yet.
fn harvest(groups: &Vec<Vec<BitSet>>, primes: &mut Vec<BitSet>)
    requires
        distinct_bits(old(primes)@),
        forall|m: int| 0 <= m < old(primes)@.len() ==> !(#[trigger] old(primes)@[m]).used,
    ensures
        distinct_bits(final(primes)@),
        forall|m: int| 0 <= m < final(primes)@.len() ==> !(#[trigger] final(primes)@[m]).used,
        forall|s: Seq<Bit>|
            #[trigger] holds_bits(final(primes)@, s) <==> (holds_bits(old(primes)@, s)
                || unused_before(groups@, s, groups@.len() as int, 0)),
{
    let ghost p0 = primes@;
    let mut k: usize = 0;
    while k < groups.len()
        invariant
            k <= groups@.len(),
            distinct_bits(primes@),
            forall|m: int| 0 <= m < primes@.len() ==> !(#[trigger] primes@[m]).used,
            forall|s: Seq<Bit>|
                #[trigger] holds_bits(primes@, s) <==> (holds_bits(p0, s) || unused_before(
                    groups@,
                    s,
                    k as int,
                    0,
                )),
        decreases groups@.len() - k,
    {
        let group = &groups[k];
        let mut p: usize = 0;
        while p < group.len()
            invariant
                k < groups@.len(),
                *group == groups@[k as int],
                p <= group@.len(),
                distinct_bits(primes@),
                forall|m: int| 0 <= m < primes@.len() ==> !(#[trigger] primes@[m]).used,
                forall|s: Seq<Bit>|
                    #[trigger] holds_bits(primes@, s) <==> (holds_bits(p0, s) || unused_before(
                        groups@,
                        s,
                        k as int,
                        p as int,
                    )),
            decreases group@.len() - p,
        {
            if !group[p].used {
                let t = copy_term(&group[p]);
                push_unique(primes, t);
            }
            proof {
                assert forall|s: Seq<Bit>| #[trigger] holds_bits(primes@, s) <==> (holds_bits(p0, s)
                    || unused_before(groups@, s, k as int, p + 1)) by {
                    if unused_before(groups@, s, k as int, p + 1) && !unused_before(
                        groups@,
                        s,
                        k as int,
                        p as int,
                    ) {
                        let (k2, p2) = choose|k2: int, p2: int|
                            0 <= k2 < groups@.len() && 0 <= p2 < groups@[k2]@.len() && before(
                                k2,
                                p2,
                                k as int,
                                p + 1,
                            ) && !(#[trigger] groups@[k2]@[p2]).used && groups@[k2]@[p2].bits@ == s;
                        assert(k2 == k && p2 == p);
                    }
                    if unused_before(groups@, s, k as int, p as int) {
                        let (k2, p2) = choose|k2: int, p2: int|
                            0 <= k2 < groups@.len() && 0 <= p2 < groups@[k2]@.len() && before(
                                k2,
                                p2,
                                k as int,
                                p as int,
                            ) && !(#[trigger] groups@[k2]@[p2]).used && groups@[k2]@[p2].bits@ == s;
                        assert(before(k2, p2, k as int, p + 1));
                    }
                    if !group@[p as int].used && s == group@[p as int].bits@ {
                        assert(before(k as int, p as int, k as int, p + 1));
                        assert(unused_before(groups@, s, k as int, p + 1));
                    }
                }
            }
            p = p + 1;
        }
        proof {
            assert forall|s: Seq<Bit>| #[trigger] holds_bits(primes@, s) <==> (holds_bits(p0, s)
                || unused_before(groups@, s, k + 1, 0)) by {
                if unused_before(groups@, s, k + 1, 0) {
                    let (k2, p2) = choose|k2: int, p2: int|
                        0 <= k2 < groups@.len() && 0 <= p2 < groups@[k2]@.len() && before(
                            k2,
                            p2,
                            k + 1,
                            0,
                        ) && !(#[trigger] groups@[k2]@[p2]).used && groups@[k2]@[p2].bits@ == s;
                    assert(before(k2, p2, k as int, p as int));
                }
                if unused_before(groups@, s, k as int, p as int) {
                    let (k2, p2) = choose|k2: int, p2: int|
                        0 <= k2 < groups@.len() && 0 <= p2 < groups@[k2]@.len() && before(
                            k2,
                            p2,
                            k as int,
                            p as int,
                        ) && !(#[trigger] groups@[k2]@[p2]).used && groups@[k2]@[p2].bits@ == s;
                    assert(before(k2, p2, k + 1, 0));
                }
            }
        }
        k = k + 1;
    }
}

/// After the generation combiner has run on a popcount grouping of `s` whose
/// terms were all unused, the unused terms of the buckets are the unmerged
/// terms of `s`.
proof fn lemma_unused_are_unmerged(
    g0: Seq<Vec<BitSet>>,
    g1: Seq<Vec<BitSet>>,
    s: Seq<BitSet>,
    t: Seq<Bit>,
)
    requires
        is_grouping_of(g0, s),
        forall|i: int| 0 <= i < s.len() ==> !(#[trigger] s[i]).used,
        g1.len() == g0.len(),
        forall|k: int| 0 <= k < g0.len() ==> same_terms((#[trigger] g1[k])@, g0[k]@),
        forall|k: int, p: int|
            0 <= k < g0.len() && 0 <= p < g0[k]@.len() ==> (#[trigger] g1[k]@[p]).used == (
            g0[k]@[p].used || merged_in_pairs(g0, k, p, g0.len() as int)),
    ensures
        unused_before(g1, t, g1.len() as int, 0) <==> unmerged(term_set(s)).contains(t),
{
    let n = g0.len() as int;
    if unused_before(g1, t, n, 0) {
        let (k, p) = choose|k: int, p: int|
            0 <= k < g1.len() && 0 <= p < g1[k]@.len() && before(k, p, n, 0) && !(#[trigger] g1[k]@[
                p]).used && g1[k]@[p].bits@ == t;
        assert(same_terms(g1[k]@, g0[k]@));
        let i = lemma_bucket_member(g0, s, k, p);
        assert(term_set(s).contains(s[i].bits@));
        lemma_marked_iff_merges(g0, s, k, p);
    }
    if unmerged(term_set(s)).contains(t) {
        let i = choose|i: int| 0 <= i < s.len() && (#[trigger] s[i]).bits@ == t;
        let (k, p) = lemma_input_member(g0, s, i);
        assert(same_terms(g1[k]@, g0[k]@));
        lemma_marked_iff_merges(g0, s, k, p);
        assert(!g1[k]@[p].used);
        assert(before(k, p, n, 0));
    }
}

/// Finds the prime implicants of the terms `bits`: the terms, over all
/// generations of merging, that merge with no term of their own generation,
/// each once.
#[verifier::rlimit(50)]
pub fn search_prime_implicants(bits: Vec<BitSet>) -> (r: Vec<BitSet>)
    requires
        widths_agree(bits@, bits@),
        forall|i: int| 0 <= i < bits@.len() ==> !(#[trigger] bits@[i]).used,
    ensures
        distinct_bits(r@),
        forall|k: int| 0 <= k < r@.len() ==> !(#[trigger] r@[k]).used,
        term_set(r@) == primes_within(term_set(bits@), width_of(bits@)),
{
    let ghost b0 = bits@;
    let ghost g0 = term_set(b0);
    let ghost w = width_of(b0);
    proof {
        assert forall|t: Seq<Bit>| #[trigger] g0.contains(t) implies t.len() == w by {
            let i = choose|i: int| 0 <= i < bits@.len() && (#[trigger] bits@[i]).bits@ == t;
            assert(bits@[i].bits@.len() == bits@[0].bits@.len());
        }
    }
    let mut current = bits;
    let mut primes: Vec<BitSet> = Vec::new();
    let ghost mut gen: nat = 0;
    proof {
        assert(term_set(primes@) =~= Set::<Seq<Bit>>::empty());
        assert(term_set(primes@).union(primes_within(g0, w)) =~= primes_within(g0, w));
    }
    loop
        invariant
            g0 == term_set(b0),
            b0 == bits@,
            w == width_of(b0),
            all_of_width(g0, w),
            forall|i: int| 0 <= i < current@.len() ==> !(#[trigger] current@[i]).used,
            forall|i: int| 0 <= i < current@.len() ==> (#[trigger] current@[i]).bits@.len() == w,
            term_set(current@) == generation(g0, gen),
            gen <= w,
            distinct_bits(primes@),
            forall|k: int| 0 <= k < primes@.len() ==> !(#[trigger] primes@[k]).used,
            term_set(primes@).union(primes_within(term_set(current@), (w - gen) as nat))
                == primes_within(g0, w),
        decreases w - gen,
    {
        let ghost cur = current@;
        let ghost c = term_set(cur);
        let ghost p0 = primes@;
        let mut groups = sort_bits(current.as_slice());
        let ghost gr0 = groups@;
        proof {
            assert forall|i: int, k: int|
                0 <= i < gr0.len() && 0 <= k < gr0.len() implies widths_agree(
                (#[trigger] gr0[i])@,
                (#[trigger] gr0[k])@,
            ) by {
                assert forall|x: int, y: int|
                    0 <= x < gr0[i]@.len() && 0 <= y < gr0[k]@.len() implies (#[trigger] gr0[i]@[
                    x]).bits@.len() == (#[trigger] gr0[k]@[y]).bits@.len() by {
                    let a = lemma_bucket_member(gr0, cur, i, x);
                    let b = lemma_bucket_member(gr0, cur, k, y);
                }
            }
        }
        let new = find_prime_implicants(&mut groups);
        harvest(&groups, &mut primes);
        proof {
            assert forall|t: Seq<Bit>| #[trigger] holds_bits(primes@, t) <==> (holds_bits(p0, t)
                || unmerged(c).contains(t)) by {
                lemma_unused_are_unmerged(gr0, groups@, cur, t);
            }
            assert(term_set(primes@) =~= term_set(p0).union(unmerged(c)));
            assert forall|t: Seq<Bit>| #[trigger] holds_bits(new@, t) <==> next_generation(c).contains(t) by {
                lemma_adjacent_is_next(gr0, cur, t);
            }
            assert(term_set(new@) =~= next_generation(c));
        }
        if new.len() == 0 {
            proof {
                assert(next_generation(c) =~= Set::<Seq<Bit>>::empty());
                if w - gen > 0 {
                    lemma_primes_of_empty((w - gen - 1) as nat);
                }
                assert(primes_within(c, (w - gen) as nat) =~= unmerged(c));
                assert(term_set(primes@) =~= primes_within(g0, w));
            }
            return primes;
        }
        proof {
            assert(new@.len() > 0);
            let t = new@[0].bits@;
            assert(holds_bits(new@, t));
            assert(generation(g0, gen + 1) == next_generation(generation(g0, gen)));
            lemma_generation_dont_cares(g0, w, gen + 1);
            lemma_dont_cares_bounded(t);
            assert forall|i: int| 0 <= i < new@.len() implies (#[trigger] new@[i]).bits@.len() == w by {
                assert(holds_bits(new@, new@[i].bits@));
            }
            assert(primes_within(c, (w - gen) as nat) == unmerged(c).union(
                primes_within(next_generation(c), (w - gen - 1) as nat),
            ));
            assert(term_set(primes@).union(primes_within(term_set(new@), (w - (gen + 1)) as nat))
                =~= primes_within(g0, w));
        }
        current = new;
        proof {
            gen = gen + 1;
        }
    }
}

/// `p` covers `t`: same width, and each position of `p` is `DontCare` or the
/// bit of `t`.
pub open spec fn covers(p: Seq<Bit>, t: Seq<Bit>) -> bool {
    &&& p.len() == t.len()
    &&& forall|i: int| 0 <= i < t.len() ==> #[trigger] p[i] == Bit::DontCare || p[i] == t[i]
}

proof fn lemma_generation_shift(g: Set<Seq<Bit>>, k: nat)
    ensures
        generation(next_generation(g), k) == generation(g, k + 1),
    decreases k,
{
    if k > 0 {
        lemma_generation_shift(g, (k - 1) as nat);
        assert(generation(next_generation(g), k) == next_generation(
            generation(next_generation(g), (k - 1) as nat),
        ));
        assert(generation(g, k + 1) == next_generation(generation(g, k)));
    } else {
        assert(generation(next_generation(g), 0) == next_generation(g));
        assert(generation(g, 1) == next_generation(generation(g, 0)));
    }
}

proof fn lemma_covered(g: Set<Seq<Bit>>, w: nat, n: nat, t: Seq<Bit>) -> (p: Seq<Bit>)
    requires
        all_of_width(g, w),
        generation(g, n + 1) == Set::<Seq<Bit>>::empty(),
        g.contains(t),
    ensures
        primes_within(g, n).contains(p),
        covers(p, t),
    decreases n,
{
    if unmerged(g).contains(t) {
        assert(covers(t, t));
        t
    } else {
        let b = choose|b: Seq<Bit>| g.contains(b) && #[trigger] mergeable(t, b);
        let m = merge(t, b)->0;
        assert(next_generation(g).contains(m));
        assert(generation(g, 1) == next_generation(generation(g, 0)));
        lemma_generation_dont_cares(g, w, 1);
        if n == 0 {
            assert(generation(g, 1).contains(m));
            t
        } else {
            lemma_generation_shift(g, n);
            let p = lemma_covered(next_generation(g), w, (n - 1) as nat, m);
            assert forall|i: int| 0 <= i < t.len() implies #[trigger] p[i] == Bit::DontCare || p[i]
                == t[i] by {
                assert(p[i] == Bit::DontCare || p[i] == m[i]);
            }
            p
        }
    }
}

/// Every input row is covered by one of the prime implicants.
pub proof fn lemma_primes_cover_rows(bits: Seq<BitSet>)
    requires
        widths_agree(bits, bits),
    ensures
        forall|i: int|
            0 <= i < bits.len() ==> exists|p: Seq<Bit>|
                primes_within(term_set(bits), width_of(bits)).contains(p) && covers(
                    p,
                    (#[trigger] bits[i]).bits@,
                ),
{
    let g = term_set(bits);
    let w = width_of(bits);
    assert forall|t: Seq<Bit>| #[trigger] g.contains(t) implies t.len() == w by {
        let i = choose|i: int| 0 <= i < bits.len() && (#[trigger] bits[i]).bits@ == t;
        assert(bits[i].bits@.len() == bits[0].bits@.len());
    }
    lemma_generations_end(g, w);
    assert forall|i: int| 0 <= i < bits.len() implies exists|p: Seq<Bit>|
        primes_within(g, w).contains(p) && covers(p, (#[trigger] bits[i]).bits@) by {
        assert(g.contains(bits[i].bits@));
        let p = lemma_covered(g, w, w, bits[i].bits@);
    }
}

/// The prime implicants depend only on the set of input rows and their width:
/// the same rows, in another order or repeated, give the same prime set.
pub proof fn lemma_primes_depend_on_row_set(b1: Seq<BitSet>, b2: Seq<BitSet>)
    requires
        term_set(b1) == term_set(b2),
        width_of(b1) == width_of(b2),
    ensures
        primes_within(term_set(b1), width_of(b1)) == primes_within(term_set(b2), width_of(b2)),
{
}

} // verus!
