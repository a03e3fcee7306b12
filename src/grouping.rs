//! Partition of terms into buckets by popcount.
use vstd::multiset::Multiset;
use vstd::prelude::*;
use crate::term::{copy_term, count_ones, popcount, term_view, terms_view, Bit, BitSet};

verus! {

/// The popcount shared by the terms of a bucket.
pub open spec fn key_of(g: Seq<BitSet>) -> nat {
    popcount(g[0].bits@)
}

/// The terms of `s` whose popcount is `k`, in their order in `s`.
pub open spec fn with_popcount(s: Seq<BitSet>, k: nat) -> Seq<(Seq<Bit>, bool)> {
    terms_view(s).filter(|t: (Seq<Bit>, bool)| popcount(t.0) == k)
}

/// `groups` is the popcount partition of `s`: non-empty buckets in strictly
/// ascending order of key, each holding exactly the terms of `s` with its key in
/// their input order, and a bucket for the popcount of every term of `s`.
pub open spec fn is_grouping_of(groups: Seq<Vec<BitSet>>, s: Seq<BitSet>) -> bool {
    &&& forall|j: int| 0 <= j < groups.len() ==> (#[trigger] groups[j])@.len() > 0
    &&& forall|j: int, k: int|
        0 <= j < k < groups.len() ==> key_of((#[trigger] groups[j])@) < key_of(
            (#[trigger] groups[k])@,
        )
    &&& forall|j: int|
        0 <= j < groups.len() ==> terms_view((#[trigger] groups[j])@) == with_popcount(
            s,
            key_of(groups[j]@),
        )
    &&& forall|i: int| 0 <= i < s.len() ==> has_bucket(groups, popcount((#[trigger] s[i]).bits@))
}

/// Some bucket of `groups` has key `k`.
pub open spec fn has_bucket(groups: Seq<Vec<BitSet>>, k: nat) -> bool {
    exists|j: int| 0 <= j < groups.len() && key_of((#[trigger] groups[j])@) == k
}

proof fn lemma_filter_push<A>(s: Seq<A>, x: A, p: spec_fn(A) -> bool)
    ensures
        s.push(x).filter(p) == if p(x) {
            s.filter(p).push(x)
        } else {
            s.filter(p)
        },
{
    reveal(Seq::filter);
    assert(s.push(x).drop_last() =~= s);
}

/// Groups terms into buckets by popcount, in ascending order of popcount.
pub fn sort_bits(bitsets: &[BitSet]) -> (r: Vec<Vec<BitSet>>)
    ensures
        is_grouping_of(r@, bitsets@),
{
    let n = bitsets.len();
    let mut counts: Vec<usize> = Vec::new();
    let mut max: usize = 0;
    let mut i: usize = 0;
    while i < n
        invariant
            n == bitsets@.len(),
            i <= n,
            counts@.len() == i,
            forall|k: int| 0 <= k < i ==> #[trigger] counts@[k] == popcount(bitsets@[k].bits@),
            forall|k: int| 0 <= k < i ==> #[trigger] counts@[k] <= max,
        decreases n - i,
    {
        let c = count_ones(&bitsets[i]);
        counts.push(c);
        if c > max {
            max = c;
        }
        i = i + 1;
    }
    let mut result: Vec<Vec<BitSet>> = Vec::new();
    let mut key: usize = 0;
    let mut done = false;
    let ghost bound: int = 0;
    while !done
        invariant
            n == bitsets@.len(),
            counts@.len() == n,
            forall|k: int| 0 <= k < n ==> #[trigger] counts@[k] == popcount(bitsets@[k].bits@),
            forall|k: int| 0 <= k < n ==> #[trigger] counts@[k] <= max,
            key <= max,
            done ==> bound == max + 1,
            !done ==> bound == key,
            forall|j: int| 0 <= j < result@.len() ==> (#[trigger] result@[j])@.len() > 0,
            forall|j: int| 0 <= j < result@.len() ==> key_of((#[trigger] result@[j])@) < bound,
            forall|j: int, k: int|
                0 <= j < k < result@.len() ==> key_of((#[trigger] result@[j])@) < key_of(
                    (#[trigger] result@[k])@,
                ),
            forall|j: int|
                0 <= j < result@.len() ==> terms_view((#[trigger] result@[j])@) == with_popcount(
                    bitsets@,
                    key_of(result@[j]@),
                ),
            forall|i: int|
                0 <= i < n && popcount(bitsets@[i].bits@) < bound ==> has_bucket(
                    result@,
                    popcount((#[trigger] bitsets@[i]).bits@),
                ),
        decreases max - key + if done { 0int } else { 1int },
    {
        let ghost pred = |t: (Seq<Bit>, bool)| popcount(t.0) == key as nat;
        let mut bucket: Vec<BitSet> = Vec::new();
        let mut i: usize = 0;
        while i < n
            invariant
                n == bitsets@.len(),
                counts@.len() == n,
                forall|k: int| 0 <= k < n ==> #[trigger] counts@[k] == popcount(bitsets@[k].bits@),
                i <= n,
                pred == (|t: (Seq<Bit>, bool)| popcount(t.0) == key as nat),
                terms_view(bucket@) == terms_view(bitsets@.take(i as int)).filter(pred),
            decreases n - i,
        {
            let ghost before = bucket@;
            if counts[i] == key {
                let t = copy_term(&bitsets[i]);
                bucket.push(t);
                assert(terms_view(bucket@) =~= terms_view(before).push(term_view(t)));
            }
            proof {
                assert(terms_view(bitsets@.take(i + 1)) =~= terms_view(bitsets@.take(i as int)).push(
                    term_view(bitsets@[i as int]),
                ));
                lemma_filter_push(
                    terms_view(bitsets@.take(i as int)),
                    term_view(bitsets@[i as int]),
                    pred,
                );
            }
            i = i + 1;
        }
        proof {
            assert(bitsets@.take(n as int) =~= bitsets@);
            assert(with_popcount(bitsets@, key as nat) == terms_view(bucket@));
            assert forall|i: int| 0 <= i < n && popcount(bitsets@[i].bits@) == key implies
                terms_view(bucket@).len() > 0 by {
                terms_view(bitsets@).lemma_filter_contains(pred, i);
            }
        }
        let ghost old_result = result@;
        let ghost bv = bucket@;
        if bucket.len() > 0 {
            proof {
                terms_view(bitsets@).lemma_filter_pred(pred, 0);
                assert(terms_view(bucket@)[0] == term_view(bucket@[0]));
            }
            result.push(bucket);
        }
        proof {
            assert forall|i: int|
                0 <= i < n && popcount(bitsets@[i].bits@) < key + 1 implies has_bucket(
                result@,
                popcount((#[trigger] bitsets@[i]).bits@),
            ) by {
                if popcount(bitsets@[i].bits@) < key {
                    let j = choose|j: int|
                        0 <= j < old_result.len() && key_of((#[trigger] old_result[j])@)
                            == popcount(bitsets@[i].bits@);
                    assert(result@[j] == old_result[j]);
                } else {
                    assert(result@[result@.len() - 1]@ == bv);
                }
            }
        }
        if key == max {
            done = true;
        } else {
            key = key + 1;
        }
        proof {
            bound = key as int + if done { 1int } else { 0int };
        }
    }
    assert forall|i: int| 0 <= i < n implies has_bucket(
        result@,
        popcount((#[trigger] bitsets@[i]).bits@),
    ) by {
        assert(counts@[i] <= max);
        assert(popcount(bitsets@[i].bits@) < bound);
    }
    result
}

/// A term of a bucket is a term of `s` and has the bucket's key.
pub proof fn lemma_bucket_member(groups: Seq<Vec<BitSet>>, s: Seq<BitSet>, k: int, p: int) -> (i: int)
    requires
        is_grouping_of(groups, s),
        0 <= k < groups.len(),
        0 <= p < groups[k]@.len(),
    ensures
        0 <= i < s.len(),
        term_view(s[i]) == term_view(groups[k]@[p]),
        popcount(groups[k]@[p].bits@) == key_of(groups[k]@),
{
    let key = key_of(groups[k]@);
    let pred = |t: (Seq<Bit>, bool)| popcount(t.0) == key;
    let f = terms_view(s).filter(pred);
    assert(terms_view(groups[k]@) == with_popcount(s, key));
    assert(terms_view(groups[k]@)[p] == term_view(groups[k]@[p]));
    terms_view(s).lemma_filter_pred(pred, p);
    assert(f.contains(f[p]));
    terms_view(s).lemma_filter_contains_rev(pred, f[p]);
    let i = choose|i: int| 0 <= i < terms_view(s).len() && terms_view(s)[i] == f[p];
    i
}

/// A term of `s` stands in the bucket of its popcount.
pub proof fn lemma_input_member(groups: Seq<Vec<BitSet>>, s: Seq<BitSet>, i: int) -> (kp: (int, int))
    requires
        is_grouping_of(groups, s),
        0 <= i < s.len(),
    ensures
        0 <= kp.0 < groups.len(),
        0 <= kp.1 < groups[kp.0]@.len(),
        key_of(groups[kp.0]@) == popcount(s[i].bits@),
        term_view(groups[kp.0]@[kp.1]) == term_view(s[i]),
{
    assert(has_bucket(groups, popcount(s[i].bits@)));
    let k = choose|k: int| 0 <= k < groups.len() && key_of((#[trigger] groups[k])@) == popcount(s[i].bits@);
    let key = key_of(groups[k]@);
    let pred = |t: (Seq<Bit>, bool)| popcount(t.0) == key;
    assert(terms_view(s)[i] == term_view(s[i]));
    terms_view(s).lemma_filter_contains(pred, i);
    assert(terms_view(groups[k]@) == with_popcount(s, key));
    let p = choose|p: int| 0 <= p < with_popcount(s, key).len() && with_popcount(s, key)[p] == term_view(s[i]);
    assert(terms_view(groups[k]@)[p] == term_view(groups[k]@[p]));
    (k, p)
}

/// Where bucket `k` has key `c` and some bucket has key `c + 1`, that bucket is
/// the next one.
pub proof fn lemma_next_bucket(groups: Seq<Vec<BitSet>>, s: Seq<BitSet>, k: int, j: int)
    requires
        is_grouping_of(groups, s),
        0 <= k < groups.len(),
        0 <= j < groups.len(),
        key_of(groups[j]@) == key_of(groups[k]@) + 1,
    ensures
        j == k + 1,
{
    if j <= k {
        if j < k {
            assert(key_of(groups[j]@) < key_of(groups[k]@));
        }
    } else if j > k + 1 {
        assert(key_of(groups[k]@) < key_of(groups[k + 1]@));
        assert(key_of(groups[k + 1]@) < key_of(groups[j]@));
    }
}

/// The multiset union of the views of the first `n` buckets.
pub open spec fn buckets_multiset(groups: Seq<Vec<BitSet>>, n: int) -> Multiset<(Seq<Bit>, bool)>
    decreases n,
{
    if n <= 0 {
        Multiset::empty()
    } else {
        buckets_multiset(groups, n - 1).add(terms_view(groups[n - 1]@).to_multiset())
    }
}

proof fn lemma_filter_count<A>(s: Seq<A>, p: spec_fn(A) -> bool, v: A)
    ensures
        s.filter(p).to_multiset().count(v) == if p(v) {
            s.to_multiset().count(v)
        } else {
            0
        },
    decreases s.len(),
{
    broadcast use vstd::seq_lib::group_to_multiset_ensures;

    if s.len() == 0 {
        assert(s.filter(p) =~= Seq::<A>::empty()) by {
            reveal(Seq::filter);
        }
    } else {
        let t = s.drop_last();
        let x = s.last();
        assert(t.push(x) =~= s);
        lemma_filter_count(t, p, v);
        lemma_filter_push(t, x, p);
    }
}

proof fn lemma_bucket_counts(groups: Seq<Vec<BitSet>>, s: Seq<BitSet>, n: int, v: (Seq<Bit>, bool))
    requires
        is_grouping_of(groups, s),
        0 <= n <= groups.len(),
    ensures
        buckets_multiset(groups, n).count(v) == if exists|k: int|
            0 <= k < n && key_of((#[trigger] groups[k])@) == popcount(v.0) {
            terms_view(s).to_multiset().count(v)
        } else {
            0
        },
    decreases n,
{
    if n > 0 {
        lemma_bucket_counts(groups, s, n - 1, v);
        let key = key_of(groups[n - 1]@);
        let pred = |t: (Seq<Bit>, bool)| popcount(t.0) == key;
        lemma_filter_count(terms_view(s), pred, v);
        assert(terms_view(groups[n - 1]@) == with_popcount(s, key));
        if key == popcount(v.0) {
            assert forall|k: int| 0 <= k < n - 1 implies key_of((#[trigger] groups[k])@) != popcount(
                v.0,
            ) by {
                assert(key_of(groups[k]@) < key_of(groups[n - 1]@));
            }
        } else {
            if exists|k: int| 0 <= k < n && key_of((#[trigger] groups[k])@) == popcount(v.0) {
                let k = choose|k: int| 0 <= k < n && key_of((#[trigger] groups[k])@) == popcount(v.0);
                assert(k < n - 1);
            }
        }
    }
}

/// A popcount grouping is a strict partition: buckets have distinct keys, a
/// term of the input stands in a bucket exactly when the bucket's key is its
/// popcount, and the multiset union of the buckets is the input multiset.
pub proof fn lemma_grouping_partition(groups: Seq<Vec<BitSet>>, s: Seq<BitSet>)
    requires
        is_grouping_of(groups, s),
    ensures
        forall|j: int, k: int|
            0 <= j < groups.len() && 0 <= k < groups.len() && key_of((#[trigger] groups[j])@)
                == key_of((#[trigger] groups[k])@) ==> j == k,
        forall|i: int, k: int|
            0 <= i < s.len() && 0 <= k < groups.len() ==> (terms_view(
                (#[trigger] groups[k])@,
            ).contains(term_view(#[trigger] s[i])) <==> key_of(groups[k]@) == popcount(
                s[i].bits@,
            )),
        buckets_multiset(groups, groups.len() as int) == terms_view(s).to_multiset(),
{
    broadcast use vstd::seq_lib::group_to_multiset_ensures;

    assert forall|j: int, k: int|
        0 <= j < groups.len() && 0 <= k < groups.len() && key_of((#[trigger] groups[j])@) == key_of(
            (#[trigger] groups[k])@,
        ) implies j == k by {
        if j < k {
            assert(key_of(groups[j]@) < key_of(groups[k]@));
        } else if k < j {
            assert(key_of(groups[k]@) < key_of(groups[j]@));
        }
    }
    assert forall|i: int, k: int| 0 <= i < s.len() && 0 <= k < groups.len() implies (terms_view(
        (#[trigger] groups[k])@,
    ).contains(term_view(#[trigger] s[i])) <==> key_of(groups[k]@) == popcount(s[i].bits@)) by {
        if terms_view(groups[k]@).contains(term_view(s[i])) {
            let p = choose|p: int|
                0 <= p < terms_view(groups[k]@).len() && terms_view(groups[k]@)[p] == term_view(s[i]);
            assert(terms_view(groups[k]@)[p] == term_view(groups[k]@[p]));
            lemma_bucket_member(groups, s, k, p);
        }
        if key_of(groups[k]@) == popcount(s[i].bits@) {
            let (k2, p) = lemma_input_member(groups, s, i);
            assert(key_of(groups[k2]@) == key_of(groups[k]@));
            assert(k2 == k);
            assert(terms_view(groups[k]@)[p] == term_view(groups[k]@[p]));
        }
    }
    assert forall|v: (Seq<Bit>, bool)|
        buckets_multiset(groups, groups.len() as int).count(v) == terms_view(s).to_multiset().count(
            v,
        ) by {
        lemma_bucket_counts(groups, s, groups.len() as int, v);
        if terms_view(s).to_multiset().count(v) > 0 {
            assert(terms_view(s).contains(v));
            let i = choose|i: int| 0 <= i < terms_view(s).len() && terms_view(s)[i] == v;
            assert(terms_view(s)[i] == term_view(s[i]));
            assert(has_bucket(groups, popcount(s[i].bits@)));
        }
    }
    assert(buckets_multiset(groups, groups.len() as int) =~= terms_view(s).to_multiset());
}

} // verus!
