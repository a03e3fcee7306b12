//! Pairwise merging of term collections and of adjacent popcount buckets.
use vstd::prelude::*;
use crate::term::{copy_term, hamming, merge, mergeable, same_bits, Bit, BitSet};

verus! {

/// Every term of `a` has the width of every term of `b`.
pub open spec fn widths_agree(a: Seq<BitSet>, b: Seq<BitSet>) -> bool {
    forall|i: int, j: int|
        0 <= i < a.len() && 0 <= j < b.len() ==> (#[trigger] a[i]).bits@.len() == (#[trigger] b[
            j]).bits@.len()
}

/// The same terms, markers aside.
pub open spec fn same_terms(x: Seq<BitSet>, y: Seq<BitSet>) -> bool {
    &&& x.len() == y.len()
    &&& forall|i: int| 0 <= i < x.len() ==> (#[trigger] x[i]).bits@ == y[i].bits@
}

/// `t`, as left operand, merges with one of the first `n` terms of `others`.
pub open spec fn merges_before(t: Seq<Bit>, others: Seq<BitSet>, n: int) -> bool {
    exists|j: int| 0 <= j < n && mergeable(t, (#[trigger] others[j]).bits@)
}

/// One of the first `n` terms of `others`, as left operand, merges with `t`.
pub open spec fn merged_before(others: Seq<BitSet>, t: Seq<Bit>, n: int) -> bool {
    exists|j: int| 0 <= j < n && mergeable((#[trigger] others[j]).bits@, t)
}

/// Some term of `v` has the bits `s`.
pub open spec fn holds_bits(v: Seq<BitSet>, s: Seq<Bit>) -> bool {
    exists|k: int| 0 <= k < v.len() && (#[trigger] v[k]).bits@ == s
}

/// `s` is the merge of a term of `a` with a term of `b`.
pub open spec fn merge_of_sets(a: Seq<BitSet>, b: Seq<BitSet>, s: Seq<Bit>) -> bool {
    exists|i: int, j: int|
        0 <= i < a.len() && 0 <= j < b.len() && merge(
            (#[trigger] a[i]).bits@,
            (#[trigger] b[j]).bits@,
        ) == Some(s)
}

/// No two terms of `v` have the same bits.
pub open spec fn distinct_bits(v: Seq<BitSet>) -> bool {
    forall|i: int, j: int|
        0 <= i < v.len() && 0 <= j < v.len() && i != j ==> (#[trigger] v[i]).bits@ != (#[trigger] v[
            j]).bits@
}

/// The pair `(p, q)` comes before `(i, j)` in row-major order.
pub open spec fn before(p: int, q: int, i: int, j: int) -> bool {
    p < i || (p == i && q < j)
}

/// The bit sequences of the terms of `v`, in order.
pub open spec fn bits_seq(v: Seq<BitSet>) -> Seq<Seq<Bit>> {
    v.map_values(|t: BitSet| t.bits@)
}

/// The merges of `t` with the first `n` terms of `b` that it merges with, in
/// the order of `b`.
pub open spec fn row_merges(t: Seq<Bit>, b: Seq<BitSet>, n: int) -> Seq<Seq<Bit>>
    decreases n,
{
    if n <= 0 {
        Seq::empty()
    } else {
        let prev = row_merges(t, b, n - 1);
        match merge(t, b[n - 1].bits@) {
            Some(m) => prev.push(m),
            None => prev,
        }
    }
}

/// One merge for each merging pair of a term among the first `m` of `a` with a
/// term of `b`, in row-major order; pairs that merge to the same bits each
/// count.
pub open spec fn pair_merges(a: Seq<BitSet>, b: Seq<BitSet>, m: int) -> Seq<Seq<Bit>>
    decreases m,
{
    if m <= 0 {
        Seq::empty()
    } else {
        pair_merges(a, b, m - 1) + row_merges(a[m - 1].bits@, b, b.len() as int)
    }
}

/// Tries every pair of a term of `set_a` with a term of `set_b`. Each term that
/// takes part in a successful merge is marked used; the merges, unused, are
/// returned, or `None` when no pair merges.
pub fn compare_sets(set_a: &mut Vec<BitSet>, set_b: &mut Vec<BitSet>) -> (r: Option<Vec<BitSet>>)
    requires
        widths_agree(old(set_a)@, old(set_b)@),
    ensures
        same_terms(final(set_a)@, old(set_a)@),
        same_terms(final(set_b)@, old(set_b)@),
        forall|i: int|
            0 <= i < old(set_a)@.len() ==> (#[trigger] final(set_a)@[i]).used == (old(set_a)@[i].used || merges_before(old(set_a)@[i].bits@, old(set_b)@, old(set_b)@.len() as int)),
        forall|j: int|
            0 <= j < old(set_b)@.len() ==> (#[trigger] final(set_b)@[j]).used == (old(set_b)@[j].used || merged_before(old(set_a)@, old(set_b)@[j].bits@, old(set_a)@.len() as int)),
        r is Some <==> exists|i: int|
            0 <= i < old(set_a)@.len() && merges_before(
                (#[trigger] old(set_a)@[i]).bits@,
                old(set_b)@,
                old(set_b)@.len() as int,
            ),
        r matches Some(v) ==> forall|k: int| 0 <= k < v@.len() ==> !(#[trigger] v@[k]).used,
        r is None <==> pair_merges(old(set_a)@, old(set_b)@, old(set_a)@.len() as int).len() == 0,
        r matches Some(v) ==> bits_seq(v@) == pair_merges(
            old(set_a)@,
            old(set_b)@,
            old(set_a)@.len() as int,
        ),
        r matches Some(v) ==> v@.len() <= old(set_a)@.len() * old(set_b)@.len(),
        r matches Some(v) ==> forall|s: Seq<Bit>|
            #[trigger] holds_bits(v@, s) <==> merge_of_sets(old(set_a)@, old(set_b)@, s),
{
    let ghost a0 = set_a@;
    let ghost b0 = set_b@;
    let na = set_a.len();
    let nb = set_b.len();
    let mut result: Vec<BitSet> = Vec::new();
    let ghost mut src: Seq<(int, int)> = Seq::empty();
    let mut i: usize = 0;
    while i < na
        invariant
            na == a0.len(),
            nb == b0.len(),
            i <= na,
            widths_agree(a0, b0),
            same_terms(set_a@, a0),
            same_terms(set_b@, b0),
            forall|k: int|
                0 <= k < na ==> (#[trigger] set_a@[k]).used == (a0[k].used || (k < i
                    && merges_before(a0[k].bits@, b0, nb as int))),
            forall|m: int|
                0 <= m < nb ==> (#[trigger] set_b@[m]).used == (b0[m].used || merged_before(
                    a0,
                    b0[m].bits@,
                    i as int,
                )),
            src.len() == result@.len(),
            bits_seq(result@) == pair_merges(a0, b0, i as int),
            result@.len() <= i * nb,
            forall|k: int| 0 <= k < result@.len() ==> !(#[trigger] result@[k]).used,
            forall|k: int|
                0 <= k < result@.len() ==> {
                    let (p, q) = #[trigger] src[k];
                    &&& 0 <= p < i
                    &&& 0 <= q < nb
                    &&& merge(a0[p].bits@, b0[q].bits@) == Some(result@[k].bits@)
                },
            forall|p: int, q: int|
                0 <= p < i && 0 <= q < nb && mergeable(#[trigger] a0[p].bits@, #[trigger] b0[q].bits@)
                    ==> holds_bits(result@, merge(a0[p].bits@, b0[q].bits@)->0),
        decreases na - i,
    {
        let mut j: usize = 0;
        while j < nb
            invariant
                na == a0.len(),
                nb == b0.len(),
                i < na,
                j <= nb,
                widths_agree(a0, b0),
                same_terms(set_a@, a0),
                same_terms(set_b@, b0),
                forall|k: int|
                    0 <= k < na ==> (#[trigger] set_a@[k]).used == (a0[k].used || (k < i
                        && merges_before(a0[k].bits@, b0, nb as int)) || (k == i && merges_before(
                        a0[k].bits@,
                        b0,
                        j as int,
                    ))),
                forall|m: int|
                    0 <= m < nb ==> (#[trigger] set_b@[m]).used == (b0[m].used || merged_before(
                        a0,
                        b0[m].bits@,
                        i as int,
                    ) || (m < j && mergeable(a0[i as int].bits@, b0[m].bits@))),
                src.len() == result@.len(),
                bits_seq(result@) == pair_merges(a0, b0, i as int) + row_merges(
                    a0[i as int].bits@,
                    b0,
                    j as int,
                ),
                result@.len() <= i * nb + j,
                forall|k: int| 0 <= k < result@.len() ==> !(#[trigger] result@[k]).used,
                forall|k: int|
                    0 <= k < result@.len() ==> {
                        let (p, q) = #[trigger] src[k];
                        &&& 0 <= p <= i
                        &&& 0 <= q < nb
                        &&& before(p, q, i as int, j as int)
                        &&& merge(a0[p].bits@, b0[q].bits@) == Some(result@[k].bits@)
                    },
                forall|p: int, q: int|
                    0 <= p <= i && 0 <= q < nb && before(p, q, i as int, j as int) && mergeable(
                        #[trigger] a0[p].bits@,
                        #[trigger] b0[q].bits@,
                    ) ==> holds_bits(result@, merge(a0[p].bits@, b0[q].bits@)->0),
            decreases nb - j,
        {
            assert(a0[i as int].bits@.len() == b0[j as int].bits@.len());
            let m = hamming(&set_a[i], &set_b[j]);
            match m {
                Some(t) => {
                    set_a[i].used = true;
                    set_b[j].used = true;
                    let ghost before_push = result@;
                    result.push(t);
                    proof {
                        assert(bits_seq(result@) =~= bits_seq(before_push).push(t.bits@));
                        assert(bits_seq(result@) =~= pair_merges(a0, b0, i as int) + row_merges(
                            a0[i as int].bits@,
                            b0,
                            j + 1,
                        ));
                        src = src.push((i as int, j as int));
                        assert forall|p: int, q: int|
                            0 <= p <= i && 0 <= q < nb && before(p, q, i as int, j + 1)
                                && mergeable(
                                #[trigger] a0[p].bits@,
                                #[trigger] b0[q].bits@,
                            ) implies holds_bits(result@, merge(a0[p].bits@, b0[q].bits@)->0) by {
                            if p == i && q == j {
                                assert(result@[result@.len() - 1] == t);
                            } else {
                                let k = choose|k: int|
                                    0 <= k < before_push.len() && (#[trigger] before_push[k]).bits@
                                        == merge(a0[p].bits@, b0[q].bits@)->0;
                                assert(result@[k] == before_push[k]);
                            }
                        }
                    }
                },
                None => {},
            }
            j = j + 1;
        }
        proof {
            assert(i * nb + nb == (i + 1) * nb) by (nonlinear_arith);
        }
        i = i + 1;
    }
    proof {
        assert(bits_seq(result@).len() == result@.len());
        if result@.len() > 0 {
            let (p, q) = src[0];
            assert(merges_before(a0[p].bits@, b0, nb as int));
        }
        if exists|p: int| 0 <= p < na && merges_before(#[trigger] a0[p].bits@, b0, nb as int) {
            let p = choose|p: int| 0 <= p < na && merges_before(#[trigger] a0[p].bits@, b0, nb as int);
            let q = choose|q: int| 0 <= q < nb && mergeable(a0[p].bits@, (#[trigger] b0[q]).bits@);
            assert(holds_bits(result@, merge(a0[p].bits@, b0[q].bits@)->0));
        }
        assert forall|s: Seq<Bit>| #[trigger] holds_bits(result@, s) implies merge_of_sets(a0, b0, s) by {
            let k = choose|k: int| 0 <= k < result@.len() && (#[trigger] result@[k]).bits@ == s;
            let (p, q) = src[k];
            assert(merge(a0[p].bits@, b0[q].bits@) == Some(s));
        }
        assert forall|s: Seq<Bit>| merge_of_sets(a0, b0, s) implies #[trigger] holds_bits(result@, s) by {
            let (p, q) = choose|p: int, q: int|
                0 <= p < na && 0 <= q < nb && merge(
                    (#[trigger] a0[p]).bits@,
                    (#[trigger] b0[q]).bits@,
                ) == Some(s);
            assert(mergeable(a0[p].bits@, b0[q].bits@));
        }
    }
    if result.len() == 0 {
        None
    } else {
        Some(result)
    }
}

/// All terms of all buckets share one width.
pub open spec fn uniform_groups(g: Seq<Vec<BitSet>>) -> bool {
    forall|i: int, k: int|
        0 <= i < g.len() && 0 <= k < g.len() ==> widths_agree((#[trigger] g[i])@, (#[trigger] g[k])@)
}

/// `s` is the merge of a term of some bucket with a term of the next bucket.
pub open spec fn adjacent_merge(g: Seq<Vec<BitSet>>, s: Seq<Bit>, n: int) -> bool {
    exists|i: int| 0 <= i && i + 1 < n && #[trigger] merge_of_sets(g[i]@, g[i + 1]@, s)
}

/// Whether the term at position `p` of bucket `k` merges with a term of a
/// neighbouring bucket, counting only the pairs of buckets before `i`.
pub open spec fn merged_in_pairs(g: Seq<Vec<BitSet>>, k: int, p: int, i: int) -> bool {
    let t = g[k]@[p].bits@;
    ||| (k < i && k + 1 < g.len() && merges_before(t, g[k + 1]@, g[k + 1]@.len() as int))
    ||| (0 < k && k <= i && merged_before(g[k - 1]@, t, g[k - 1]@.len() as int))
}

proof fn lemma_same_terms(x: Seq<BitSet>, y: Seq<BitSet>, t: Seq<Bit>)
    requires
        same_terms(x, y),
    ensures
        merges_before(t, x, x.len() as int) == merges_before(t, y, y.len() as int),
        merged_before(x, t, x.len() as int) == merged_before(y, t, y.len() as int),
        forall|z: Seq<BitSet>, s: Seq<Bit>|
            #[trigger] merge_of_sets(x, z, s) == merge_of_sets(y, z, s),
        forall|z: Seq<BitSet>, s: Seq<Bit>|
            #[trigger] merge_of_sets(z, x, s) == merge_of_sets(z, y, s),
{
    if merges_before(t, x, x.len() as int) {
        let j = choose|j: int| 0 <= j < x.len() && mergeable(t, (#[trigger] x[j]).bits@);
        assert(mergeable(t, y[j].bits@));
    }
    if merges_before(t, y, y.len() as int) {
        let j = choose|j: int| 0 <= j < y.len() && mergeable(t, (#[trigger] y[j]).bits@);
        assert(mergeable(t, x[j].bits@));
    }
    if merged_before(x, t, x.len() as int) {
        let j = choose|j: int| 0 <= j < x.len() && mergeable((#[trigger] x[j]).bits@, t);
        assert(mergeable(y[j].bits@, t));
    }
    if merged_before(y, t, y.len() as int) {
        let j = choose|j: int| 0 <= j < y.len() && mergeable((#[trigger] y[j]).bits@, t);
        assert(mergeable(x[j].bits@, t));
    }
    assert forall|z: Seq<BitSet>, s: Seq<Bit>|
        #[trigger] merge_of_sets(x, z, s) == merge_of_sets(y, z, s) by {
        if merge_of_sets(x, z, s) {
            let (i, j) = choose|i: int, j: int|
                0 <= i < x.len() && 0 <= j < z.len() && merge(
                    (#[trigger] x[i]).bits@,
                    (#[trigger] z[j]).bits@,
                ) == Some(s);
            assert(merge(y[i].bits@, z[j].bits@) == Some(s));
        }
        if merge_of_sets(y, z, s) {
            let (i, j) = choose|i: int, j: int|
                0 <= i < y.len() && 0 <= j < z.len() && merge(
                    (#[trigger] y[i]).bits@,
                    (#[trigger] z[j]).bits@,
                ) == Some(s);
            assert(merge(x[i].bits@, z[j].bits@) == Some(s));
        }
    }
    assert forall|z: Seq<BitSet>, s: Seq<Bit>|
        #[trigger] merge_of_sets(z, x, s) == merge_of_sets(z, y, s) by {
        if merge_of_sets(z, x, s) {
            let (i, j) = choose|i: int, j: int|
                0 <= i < z.len() && 0 <= j < x.len() && merge(
                    (#[trigger] z[i]).bits@,
                    (#[trigger] x[j]).bits@,
                ) == Some(s);
            assert(merge(z[i].bits@, y[j].bits@) == Some(s));
        }
        if merge_of_sets(z, y, s) {
            let (i, j) = choose|i: int, j: int|
                0 <= i < z.len() && 0 <= j < y.len() && merge(
                    (#[trigger] z[i]).bits@,
                    (#[trigger] y[j]).bits@,
                ) == Some(s);
            assert(merge(z[i].bits@, x[j].bits@) == Some(s));
        }
    }
}

/// Appends `t` unless a term with the same bits is already there.
pub(crate) fn push_unique(v: &mut Vec<BitSet>, t: BitSet)
    requires
        distinct_bits(old(v)@),
    ensures
        distinct_bits(final(v)@),
        final(v)@ == old(v)@ || final(v)@ == old(v)@.push(t),
        forall|s: Seq<Bit>|
            #[trigger] holds_bits(final(v)@, s) <==> (holds_bits(old(v)@, s) || s == t.bits@),
{
    let ghost v0 = v@;
    let mut k: usize = 0;
    while k < v.len()
        invariant
            v@ == v0,
            distinct_bits(v0),
            k <= v@.len(),
            forall|m: int| 0 <= m < k ==> (#[trigger] v@[m]).bits@ != t.bits@,
        decreases v@.len() - k,
    {
        if same_bits(&v[k], &t) {
            assert(holds_bits(v0, t.bits@));
            return;
        }
        k = k + 1;
    }
    v.push(t);
    assert forall|s: Seq<Bit>| #[trigger] holds_bits(v@, s) implies (holds_bits(v0, s) || s
        == t.bits@) by {
        let m = choose|m: int| 0 <= m < v@.len() && (#[trigger] v@[m]).bits@ == s;
        if m < v0.len() {
            assert(v0[m] == v@[m]);
        }
    }
    assert forall|s: Seq<Bit>| (holds_bits(v0, s) || s == t.bits@) implies #[trigger] holds_bits(
        v@,
        s,
    ) by {
        if holds_bits(v0, s) {
            let m = choose|m: int| 0 <= m < v0.len() && (#[trigger] v0[m]).bits@ == s;
            assert(v@[m] == v0[m]);
        } else {
            assert(v@[v0.len() as int] == t);
        }
    }
}

/// Appends the terms of `found` whose bits `all` does not hold yet.
fn extend_unique(all: &mut Vec<BitSet>, found: &Vec<BitSet>)
    requires
        distinct_bits(old(all)@),
        forall|m: int| 0 <= m < old(all)@.len() ==> !(#[trigger] old(all)@[m]).used,
        forall|m: int| 0 <= m < found@.len() ==> !(#[trigger] found@[m]).used,
    ensures
        distinct_bits(final(all)@),
        forall|m: int| 0 <= m < final(all)@.len() ==> !(#[trigger] final(all)@[m]).used,
        forall|s: Seq<Bit>|
            #[trigger] holds_bits(final(all)@, s) <==> (holds_bits(old(all)@, s) || holds_bits(
                found@,
                s,
            )),
{
    let ghost all1 = all@;
    let mut k: usize = 0;
    while k < found.len()
        invariant
            forall|m: int| 0 <= m < all@.len() ==> !(#[trigger] all@[m]).used,
            forall|m: int| 0 <= m < found@.len() ==> !(#[trigger] found@[m]).used,
            distinct_bits(all@),
            k <= found@.len(),
            forall|s: Seq<Bit>|
                #[trigger] holds_bits(all@, s) <==> (holds_bits(all1, s) || exists|m: int|
                    0 <= m < k && (#[trigger] found@[m]).bits@ == s),
        decreases found@.len() - k,
    {
        let t = copy_term(&found[k]);
        push_unique(all, t);
        k = k + 1;
        assert forall|s: Seq<Bit>|
            #[trigger] holds_bits(all@, s) <==> (holds_bits(all1, s) || exists|m: int|
                0 <= m < k && (#[trigger] found@[m]).bits@ == s) by {
            if s == t.bits@ {
                assert(found@[k - 1].bits@ == s);
            }
        }
    }
    assert forall|s: Seq<Bit>| #[trigger] holds_bits(all@, s) <==> (holds_bits(all1, s)
        || holds_bits(found@, s)) by {
        if holds_bits(found@, s) {
            let m = choose|m: int| 0 <= m < found@.len() && (#[trigger] found@[m]).bits@ == s;
            assert(found@[m].bits@ == s);
        }
    }
}

/// Runs the set combiner on buckets `i` and `i + 1` and adds its merges to
/// `all`.
fn combine_pair(groups: &mut Vec<Vec<BitSet>>, i: usize, all: &mut Vec<BitSet>)
    requires
        i + 1 < old(groups)@.len(),
        widths_agree(old(groups)@[i as int]@, old(groups)@[i + 1]@),
        distinct_bits(old(all)@),
        forall|m: int| 0 <= m < old(all)@.len() ==> !(#[trigger] old(all)@[m]).used,
    ensures
        final(groups)@.len() == old(groups)@.len(),
        forall|k: int|
            0 <= k < old(groups)@.len() && k != i && k != i + 1 ==> #[trigger] final(groups)@[k]
                == old(groups)@[k],
        same_terms(final(groups)@[i as int]@, old(groups)@[i as int]@),
        same_terms(final(groups)@[i + 1]@, old(groups)@[i + 1]@),
        forall|p: int|
            0 <= p < old(groups)@[i as int]@.len() ==> (#[trigger] final(groups)@[i as int]@[p]).used
                == (old(groups)@[i as int]@[p].used || merges_before(
                old(groups)@[i as int]@[p].bits@,
                old(groups)@[i + 1]@,
                old(groups)@[i + 1]@.len() as int,
            )),
        forall|p: int|
            0 <= p < old(groups)@[i + 1]@.len() ==> (#[trigger] final(groups)@[i + 1]@[p]).used == (
            old(groups)@[i + 1]@[p].used || merged_before(
                old(groups)@[i as int]@,
                old(groups)@[i + 1]@[p].bits@,
                old(groups)@[i as int]@.len() as int,
            )),
        distinct_bits(final(all)@),
        forall|m: int| 0 <= m < final(all)@.len() ==> !(#[trigger] final(all)@[m]).used,
        forall|s: Seq<Bit>|
            #[trigger] holds_bits(final(all)@, s) <==> (holds_bits(old(all)@, s) || merge_of_sets(
                old(groups)@[i as int]@,
                old(groups)@[i + 1]@,
                s,
            )),
{
    let n = groups.len();
    assert(i + 1 < n);
    let j = i + 1;
    let mut a: Vec<BitSet> = Vec::new();
    let mut b: Vec<BitSet> = Vec::new();
    std::mem::swap(&mut a, &mut groups[i]);
    std::mem::swap(&mut b, &mut groups[j]);
    let ghost a1 = a@;
    let ghost b1 = b@;
    let res = compare_sets(&mut a, &mut b);
    std::mem::swap(&mut a, &mut groups[i]);
    std::mem::swap(&mut b, &mut groups[j]);
    match res {
        Some(found) => {
            extend_unique(all, &found);
        },
        None => {
            assert forall|s: Seq<Bit>| !merge_of_sets(a1, b1, s) by {
                if merge_of_sets(a1, b1, s) {
                    let (x, y) = choose|x: int, y: int|
                        0 <= x < a1.len() && 0 <= y < b1.len() && merge(
                            (#[trigger] a1[x]).bits@,
                            (#[trigger] b1[y]).bits@,
                        ) == Some(s);
                    assert(merges_before(a1[x].bits@, b1, b1.len() as int));
                }
            }
        },
    }
}

/// Runs the set combiner over every pair of neighbouring buckets, marking the
/// terms that merge, and returns the merges without two of the same bits.
#[verifier::rlimit(40)]
pub fn find_prime_implicants(groups: &mut Vec<Vec<BitSet>>) -> (r: Vec<BitSet>)
    requires
        uniform_groups(old(groups)@),
    ensures
        final(groups)@.len() == old(groups)@.len(),
        forall|k: int|
            0 <= k < old(groups)@.len() ==> same_terms(
                (#[trigger] final(groups)@[k])@,
                old(groups)@[k]@,
            ),
        forall|k: int, p: int|
            0 <= k < old(groups)@.len() && 0 <= p < old(groups)@[k]@.len() ==> (#[trigger] final(groups)@[k]@[p]).used == (old(groups)@[k]@[p].used || merged_in_pairs(
                old(groups)@,
                k,
                p,
                old(groups)@.len() as int,
            )),
        forall|k: int| 0 <= k < r@.len() ==> !(#[trigger] r@[k]).used,
        distinct_bits(r@),
        forall|s: Seq<Bit>|
            #[trigger] holds_bits(r@, s) <==> adjacent_merge(
                old(groups)@,
                s,
                old(groups)@.len() as int,
            ),
{
    let ghost g0 = groups@;
    let n = groups.len();
    let mut all: Vec<BitSet> = Vec::new();
    let last: usize = if n == 0 {
        0
    } else {
        n - 1
    };
    let mut i: usize = 0;
    while i < last
        invariant
            n == g0.len(),
            last == (if n == 0 {
                0
            } else {
                n - 1
            }),
            i <= last,
            groups@.len() == n,
            uniform_groups(g0),
            forall|k: int| 0 <= k < n ==> same_terms((#[trigger] groups@[k])@, g0[k]@),
            forall|k: int, p: int|
                0 <= k < n && 0 <= p < g0[k]@.len() ==> (#[trigger] groups@[k]@[p]).used == (
                g0[k]@[p].used || merged_in_pairs(g0, k, p, i as int)),
            forall|k: int| 0 <= k < all@.len() ==> !(#[trigger] all@[k]).used,
            distinct_bits(all@),
            forall|s: Seq<Bit>| #[trigger] holds_bits(all@, s) <==> adjacent_merge(g0, s, i + 1),
        decreases last - i,
    {
        let ghost gb = groups@;
        proof {
            assert(widths_agree(g0[i as int]@, g0[i + 1]@));
            assert forall|x: int, y: int|
                0 <= x < gb[i as int]@.len() && 0 <= y < gb[i + 1]@.len() implies (#[trigger] gb[i as int]@[x]).bits@.len() == (
            #[trigger] gb[i + 1]@[y]).bits@.len() by {
                assert(g0[i as int]@[x].bits@.len() == g0[i + 1]@[y].bits@.len());
            }
        }
        combine_pair(groups, i, &mut all);
        proof {
            let g1 = groups@;
            lemma_same_terms(gb[i as int]@, g0[i as int]@, Seq::empty());
            lemma_same_terms(gb[i + 1]@, g0[i + 1]@, Seq::empty());
            assert forall|k: int| 0 <= k < n implies same_terms((#[trigger] g1[k])@, g0[k]@) by {
                if k != i && k != i + 1 {
                    assert(g1[k] == gb[k]);
                }
            }
            assert forall|k: int, p: int|
                0 <= k < n && 0 <= p < g0[k]@.len() implies (#[trigger] g1[k]@[p]).used == (
            g0[k]@[p].used || merged_in_pairs(g0, k, p, i + 1)) by {
                if k == i {
                    lemma_same_terms(gb[i + 1]@, g0[i + 1]@, gb[k]@[p].bits@);
                } else if k == i + 1 {
                    lemma_same_terms(gb[i as int]@, g0[i as int]@, gb[k]@[p].bits@);
                } else {
                    assert(g1[k] == gb[k]);
                }
            }
            assert forall|s: Seq<Bit>| #[trigger] adjacent_merge(g0, s, i + 2) <==> (adjacent_merge(g0, s, i + 1)
                || merge_of_sets(g0[i as int]@, g0[i + 1]@, s)) by {
                if adjacent_merge(g0, s, i + 2) {
                    let x = choose|x: int| 0 <= x && x + 1 < i + 2 && #[trigger] merge_of_sets(g0[x]@, g0[x + 1]@, s);
                    if x < i {
                        assert(adjacent_merge(g0, s, i + 1));
                    }
                }
            }
            assert forall|s: Seq<Bit>| #[trigger] holds_bits(all@, s) <==> adjacent_merge(g0, s, i + 2) by {
                assert(merge_of_sets(gb[i as int]@, gb[i + 1]@, s) == merge_of_sets(g0[i as int]@, gb[i + 1]@, s));
                assert(merge_of_sets(g0[i as int]@, gb[i + 1]@, s) == merge_of_sets(g0[i as int]@, g0[i + 1]@, s));
            }
        }
        i = i + 1;
    }
    proof {
        if n == 0 {
            assert forall|s: Seq<Bit>| !adjacent_merge(g0, s, 1) && !adjacent_merge(g0, s, 0) by {}
        }
    }
    all
}

} // verus!
