//! Tri-state terms and the merge of two adjacent terms.
use vstd::prelude::*;

verus! {

/// One position of a term.
#[derive(Debug, Clone, Copy, PartialEq, Eq, Hash, Structural)]
pub enum Bit {
    Zero,
    One,
    DontCare,
}

/// A product term: its bits, and whether it took part in a merge during the
/// current generation.
#[derive(Debug, Clone, PartialEq, Eq, Hash)]
pub struct BitSet {
    pub bits: Vec<Bit>,
    pub used: bool,
}

/// Two positions may stand side by side in a merge: equal, or both defined.
pub open spec fn compatible_at(x: Bit, y: Bit) -> bool {
    x == y || (x != Bit::DontCare && y != Bit::DontCare)
}

/// Equal widths, and no position pairs a `DontCare` with a defined bit.
pub open spec fn compatible(a: Seq<Bit>, b: Seq<Bit>) -> bool {
    &&& a.len() == b.len()
    &&& forall|i: int| 0 <= i < a.len() ==> compatible_at(#[trigger] a[i], b[i])
}

/// Number of positions below `n` at which `a` and `b` differ.
pub open spec fn diff_prefix(a: Seq<Bit>, b: Seq<Bit>, n: int) -> nat
    decreases n,
{
    if n <= 0 {
        0
    } else {
        diff_prefix(a, b, n - 1) + if a[n - 1] != b[n - 1] { 1nat } else { 0nat }
    }
}

/// Number of positions at which `a` and `b` differ.
pub open spec fn diff_count(a: Seq<Bit>, b: Seq<Bit>) -> nat {
    diff_prefix(a, b, a.len() as int)
}

/// `a` where it agrees with `b`, `DontCare` where it does not.
pub open spec fn combined(a: Seq<Bit>, b: Seq<Bit>) -> Seq<Bit> {
    Seq::new(a.len(), |i: int| if a[i] == b[i] { a[i] } else { Bit::DontCare })
}

/// The merge of two terms: defined when they are compatible and differ in
/// exactly one position.
pub open spec fn merge(a: Seq<Bit>, b: Seq<Bit>) -> Option<Seq<Bit>> {
    if compatible(a, b) && diff_count(a, b) == 1 {
        Some(combined(a, b))
    } else {
        None
    }
}

pub open spec fn mergeable(a: Seq<Bit>, b: Seq<Bit>) -> bool {
    merge(a, b) is Some
}

/// The bit sequence of an optional term.
pub open spec fn bits_of(r: Option<BitSet>) -> Option<Seq<Bit>> {
    match r {
        Some(t) => Some(t.bits@),
        None => None,
    }
}

/// Number of positions below `n` that hold `One`.
pub open spec fn ones_prefix(s: Seq<Bit>, n: int) -> nat
    decreases n,
{
    if n <= 0 {
        0
    } else {
        ones_prefix(s, n - 1) + if s[n - 1] == Bit::One { 1nat } else { 0nat }
    }
}

/// Popcount: the number of `One` positions.
pub open spec fn popcount(s: Seq<Bit>) -> nat {
    ones_prefix(s, s.len() as int)
}

/// Number of positions below `n` that hold `DontCare`.
pub open spec fn dont_cares_prefix(s: Seq<Bit>, n: int) -> nat
    decreases n,
{
    if n <= 0 {
        0
    } else {
        dont_cares_prefix(s, n - 1) + if s[n - 1] == Bit::DontCare { 1nat } else { 0nat }
    }
}

/// Number of `DontCare` positions.
pub open spec fn dont_cares(s: Seq<Bit>) -> nat {
    dont_cares_prefix(s, s.len() as int)
}

/// The bits that a parsed row becomes: 1 is `One`, anything else `Zero`.
pub open spec fn parsed_row(row: Seq<i32>) -> Seq<Bit> {
    row.map_values(|v: i32| if v == 1 { Bit::One } else { Bit::Zero })
}

proof fn lemma_diff_prefix_symmetric(a: Seq<Bit>, b: Seq<Bit>, n: int)
    ensures
        diff_prefix(a, b, n) == diff_prefix(b, a, n),
    decreases n,
{
    if n > 0 {
        lemma_diff_prefix_symmetric(a, b, n - 1);
    }
}

/// Merging is symmetric: `merge(a, b)` and `merge(b, a)` give the same bits.
pub proof fn lemma_merge_symmetric(a: Seq<Bit>, b: Seq<Bit>)
    ensures
        merge(a, b) == merge(b, a),
{
    lemma_diff_prefix_symmetric(a, b, a.len() as int);
    if a.len() == b.len() {
        assert(combined(a, b) =~= combined(b, a));
    }
    if compatible(a, b) {
        assert forall|i: int| 0 <= i < b.len() implies compatible_at(#[trigger] b[i], a[i]) by {
            assert(compatible_at(a[i], b[i]));
        }
    }
    if compatible(b, a) {
        assert forall|i: int| 0 <= i < a.len() implies compatible_at(#[trigger] a[i], b[i]) by {
            assert(compatible_at(b[i], a[i]));
        }
    }
}

proof fn lemma_diff_prefix_zero(a: Seq<Bit>, b: Seq<Bit>, n: int, k: int)
    requires
        0 <= k < n <= a.len(),
        n <= b.len(),
        diff_prefix(a, b, n) == 0,
    ensures
        a[k] == b[k],
    decreases n,
{
    if k < n - 1 {
        lemma_diff_prefix_zero(a, b, n - 1, k);
    }
}

proof fn lemma_diff_prefix_one(a: Seq<Bit>, b: Seq<Bit>, n: int) -> (k: int)
    requires
        0 <= n <= a.len(),
        n <= b.len(),
        diff_prefix(a, b, n) == 1,
    ensures
        0 <= k < n,
        a[k] != b[k],
        forall|i: int| 0 <= i < n && i != k ==> a[i] == b[i],
    decreases n,
{
    if a[n - 1] != b[n - 1] {
        assert forall|i: int| 0 <= i < n && i != n - 1 implies a[i] == b[i] by {
            lemma_diff_prefix_zero(a, b, n - 1, i);
        }
        n - 1
    } else {
        lemma_diff_prefix_one(a, b, n - 1)
    }
}

/// `a` and `b` differ at position `k` and nowhere else.
pub open spec fn differs_only_at(a: Seq<Bit>, b: Seq<Bit>, k: int) -> bool {
    &&& 0 <= k < a.len()
    &&& a[k] != b[k]
    &&& forall|i: int| 0 <= i < a.len() && i != k ==> a[i] == b[i]
}

/// A merge succeeds exactly on two compatible terms that differ in one
/// position; the result holds `DontCare` there and agrees with both terms
/// everywhere else.
pub proof fn lemma_merge_adjacent(a: Seq<Bit>, b: Seq<Bit>)
    requires
        a.len() == b.len(),
    ensures
        mergeable(a, b) <==> compatible(a, b) && exists|k: int| differs_only_at(a, b, k),
        forall|k: int|
            mergeable(a, b) && #[trigger] differs_only_at(a, b, k) ==> {
                &&& merge(a, b)->0.len() == a.len()
                &&& merge(a, b)->0[k] == Bit::DontCare
                &&& forall|i: int| 0 <= i < a.len() && i != k ==> merge(a, b)->0[i] == a[i]
            },
{
    if mergeable(a, b) {
        let k = lemma_diff_prefix_one(a, b, a.len() as int);
        assert(differs_only_at(a, b, k));
    }
    if compatible(a, b) && exists|k: int| differs_only_at(a, b, k) {
        let k = choose|k: int| differs_only_at(a, b, k);
        lemma_diff_prefix_single(a, b, a.len() as int, k);
    }
}

proof fn lemma_diff_prefix_single(a: Seq<Bit>, b: Seq<Bit>, n: int, k: int)
    requires
        0 <= n <= a.len(),
        n <= b.len(),
        0 <= k < a.len(),
        a[k] != b[k],
        forall|i: int| 0 <= i < a.len() && i != k ==> a[i] == b[i],
    ensures
        diff_prefix(a, b, n) == if k < n { 1nat } else { 0nat },
    decreases n,
{
    if n > 0 {
        lemma_diff_prefix_single(a, b, n - 1, k);
    }
}

proof fn lemma_prefix_counts(a: Seq<Bit>, b: Seq<Bit>, n: int)
    requires
        compatible(a, b),
        0 <= n <= a.len(),
    ensures
        dont_cares_prefix(combined(a, b), n) == dont_cares_prefix(a, n) + diff_prefix(a, b, n),
        diff_prefix(a, b, n) == 0 ==> ones_prefix(a, n) == ones_prefix(b, n),
        diff_prefix(a, b, n) == 1 ==> ones_prefix(b, n) == ones_prefix(a, n) + 1 || ones_prefix(
            a,
            n,
        ) == ones_prefix(b, n) + 1,
    decreases n,
{
    if n > 0 {
        lemma_prefix_counts(a, b, n - 1);
        assert(compatible_at(a[n - 1], b[n - 1]));
    }
}

/// A merge yields a term of the same width with one more `DontCare` than its
/// inputs, and the two inputs' popcounts differ by exactly one.
pub proof fn lemma_merge_counts(a: Seq<Bit>, b: Seq<Bit>)
    requires
        mergeable(a, b),
    ensures
        merge(a, b)->0.len() == a.len(),
        dont_cares(merge(a, b)->0) == dont_cares(a) + 1,
        popcount(b) == popcount(a) + 1 || popcount(a) == popcount(b) + 1,
{
    lemma_prefix_counts(a, b, a.len() as int);
    assert(dont_cares(merge(a, b)->0) == dont_cares_prefix(combined(a, b), a.len() as int));
    assert(popcount(b) == ones_prefix(b, a.len() as int));
}

/// A term has at most as many `DontCare` positions as its width.
pub proof fn lemma_dont_cares_bounded(s: Seq<Bit>)
    ensures
        dont_cares(s) <= s.len(),
{
    lemma_dont_cares_prefix_bounded(s, s.len() as int);
}

proof fn lemma_dont_cares_prefix_bounded(s: Seq<Bit>, n: int)
    requires
        0 <= n <= s.len(),
    ensures
        dont_cares_prefix(s, n) <= n,
    decreases n,
{
    if n > 0 {
        lemma_dont_cares_prefix_bounded(s, n - 1);
    }
}

/// What a term is, as plain values: its bits and its used marker.
pub open spec fn term_view(t: BitSet) -> (Seq<Bit>, bool) {
    (t.bits@, t.used)
}

pub open spec fn terms_view(s: Seq<BitSet>) -> Seq<(Seq<Bit>, bool)> {
    s.map_values(|t: BitSet| term_view(t))
}

/// Counts the `One` positions of a term.
pub(crate) fn count_ones(t: &BitSet) -> (r: usize)
    ensures
        r == popcount(t.bits@),
        r <= t.bits@.len(),
{
    let mut c: usize = 0;
    let mut i: usize = 0;
    while i < t.bits.len()
        invariant
            i <= t.bits@.len(),
            c == ones_prefix(t.bits@, i as int),
            c <= i,
        decreases t.bits@.len() - i,
    {
        if t.bits[i] == Bit::One {
            c = c + 1;
        }
        i = i + 1;
    }
    c
}

/// A copy of a term, bits and marker alike.
pub(crate) fn copy_term(t: &BitSet) -> (r: BitSet)
    ensures
        r.bits@ == t.bits@,
        r.used == t.used,
{
    let mut bits: Vec<Bit> = Vec::new();
    let mut i: usize = 0;
    while i < t.bits.len()
        invariant
            i <= t.bits@.len(),
            bits@ == t.bits@.take(i as int),
        decreases t.bits@.len() - i,
    {
        bits.push(t.bits[i]);
        i = i + 1;
        assert(bits@ =~= t.bits@.take(i as int));
    }
    assert(bits@ =~= t.bits@);
    BitSet { bits, used: t.used }
}

/// Compares the bit sequences of two terms, ignoring their markers.
pub(crate) fn same_bits(a: &BitSet, b: &BitSet) -> (r: bool)
    ensures
        r == (a.bits@ == b.bits@),
{
    if a.bits.len() != b.bits.len() {
        return false;
    }
    let mut i: usize = 0;
    while i < a.bits.len()
        invariant
            a.bits@.len() == b.bits@.len(),
            i <= a.bits@.len(),
            forall|k: int| 0 <= k < i ==> a.bits@[k] == b.bits@[k],
        decreases a.bits@.len() - i,
    {
        if a.bits[i] != b.bits[i] {
            return false;
        }
        i = i + 1;
    }
    assert(a.bits@ =~= b.bits@);
    true
}

/// Merges two terms of equal width. The result is present exactly when the
/// terms are compatible and differ in one position; it then holds `DontCare`
/// there and the common bit everywhere else, and is not yet used.
pub fn hamming(a: &BitSet, b: &BitSet) -> (r: Option<BitSet>)
    requires
        a.bits@.len() == b.bits@.len(),
    ensures
        bits_of(r) == merge(a.bits@, b.bits@),
        r matches Some(t) ==> !t.used,
{
    let n = a.bits.len();
    let mut bits: Vec<Bit> = Vec::new();
    let mut diff: usize = 0;
    let mut i: usize = 0;
    while i < n
        invariant
            n == a.bits@.len(),
            n == b.bits@.len(),
            i <= n,
            diff == diff_prefix(a.bits@, b.bits@, i as int),
            diff <= i,
            bits@.len() == i,
            forall|k: int| 0 <= k < i ==> compatible_at(#[trigger] a.bits@[k], b.bits@[k]),
            forall|k: int|
                0 <= k < i ==> #[trigger] bits@[k] == (if a.bits@[k] == b.bits@[k] {
                    a.bits@[k]
                } else {
                    Bit::DontCare
                }),
        decreases n - i,
    {
        let x = a.bits[i];
        let y = b.bits[i];
        match (x, y) {
            (Bit::Zero, Bit::One) | (Bit::One, Bit::Zero) => {
                diff = diff + 1;
                bits.push(Bit::DontCare);
            },
            (Bit::Zero, Bit::Zero) => bits.push(Bit::Zero),
            (Bit::One, Bit::One) => bits.push(Bit::One),
            (Bit::DontCare, Bit::DontCare) => bits.push(Bit::DontCare),
            _ => {
                assert(!compatible_at(a.bits@[i as int], b.bits@[i as int]));
                return None;
            },
        }
        i = i + 1;
    }
    if diff == 1 {
        assert(bits@ =~= combined(a.bits@, b.bits@));
        Some(BitSet { bits, used: false })
    } else {
        None
    }
}

/// Turns rows of 0/1 integers into unused terms, one per row.
pub fn parse(bits: &[Vec<i32>]) -> (r: Vec<BitSet>)
    ensures
        r@.len() == bits@.len(),
        forall|i: int|
            0 <= i < r@.len() ==> (#[trigger] r@[i]).bits@ == parsed_row(bits@[i]@) && !r@[i].used,
{
    let mut r: Vec<BitSet> = Vec::new();
    let mut i: usize = 0;
    while i < bits.len()
        invariant
            i <= bits@.len(),
            r@.len() == i,
            forall|k: int|
                0 <= k < i ==> (#[trigger] r@[k]).bits@ == parsed_row(bits@[k]@) && !r@[k].used,
        decreases bits@.len() - i,
    {
        let row = &bits[i];
        let mut out: Vec<Bit> = Vec::new();
        let mut j: usize = 0;
        while j < row.len()
            invariant
                j <= row@.len(),
                out@.len() == j,
                forall|k: int|
                    0 <= k < j ==> #[trigger] out@[k] == (if row@[k] == 1 {
                        Bit::One
                    } else {
                        Bit::Zero
                    }),
            decreases row@.len() - j,
        {
            if row[j] == 1 {
                out.push(Bit::One);
            } else {
                out.push(Bit::Zero);
            }
            j = j + 1;
        }
        assert(out@ =~= parsed_row(row@));
        r.push(BitSet { bits: out, used: false });
        i = i + 1;
    }
    r
}

} // verus!
