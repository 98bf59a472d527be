use std::collections::BTreeMap;
use vstd::prelude::*;
use vstd::std_specs::cmp::OrdSpec;
use vstd::std_specs::iter::IteratorSpec;

verus! {

/// How many sequences of length `len` the distribution `m` records (absent lengths count zero).
pub open spec fn count_of(m: Map<usize, u64>, len: usize) -> nat {
    if m.contains_key(len) {
        m[len] as nat
    } else {
        0
    }
}

/// The number of sequences in `m` whose length is below `n`.
pub open spec fn seqs_below(m: Map<usize, u64>, n: nat) -> nat
    decreases n,
{
    if n == 0 {
        0
    } else {
        seqs_below(m, (n - 1) as nat) + count_of(m, (n - 1) as usize)
    }
}

/// The number of bases held by the sequences of `m` whose length is below `n`.
pub open spec fn bases_below(m: Map<usize, u64>, n: nat) -> nat
    decreases n,
{
    if n == 0 {
        0
    } else {
        bases_below(m, (n - 1) as nat) + (n - 1) as nat * count_of(m, (n - 1) as usize)
    }
}

/// One past the largest length a distribution can hold.
pub open spec fn length_bound() -> nat {
    usize::MAX as nat + 1
}

/// The number of sequences in `m`: the sum of its counts.
pub open spec fn sum_counts(m: Map<usize, u64>) -> nat {
    seqs_below(m, length_bound())
}

/// The number of bases in `m`: the sum of length times count.
pub open spec fn sum_bases(m: Map<usize, u64>) -> nat {
    bases_below(m, length_bound())
}

/// The number of bases held by the sequences of `m` that are at least `len` long.
pub open spec fn bases_from(m: Map<usize, u64>, len: usize) -> int {
    sum_bases(m) - bases_below(m, len as nat)
}

/// `len` is the median length of `m`: the length of the sequence at index
/// `total / 2` when all lengths are listed in ascending order, or 0 when `m`
/// holds no sequence.
pub open spec fn is_median_length(m: Map<usize, u64>, len: usize) -> bool {
    if sum_counts(m) == 0 {
        len == 0
    } else {
        seqs_below(m, len as nat) <= sum_counts(m) / 2 < seqs_below(m, len as nat + 1)
    }
}

/// Sequences at least `len` long hold at least `target` percent of the bases of `m`.
pub open spec fn covers_target(m: Map<usize, u64>, len: usize, target: nat) -> bool {
    100 * bases_from(m, len) >= target * sum_bases(m)
}

/// `len` is the N-score of `m` for `target` percent: the largest length recorded
/// in `m` whose sequences and all longer ones hold at least `target` percent of the
/// bases, or 0 when `m` records no length at all.
pub open spec fn is_n_score(m: Map<usize, u64>, target: nat, len: usize) -> bool {
    if m.dom().is_empty() {
        len == 0
    } else {
        &&& m.contains_key(len)
        &&& covers_target(m, len, target)
        &&& forall|k: usize| #[trigger] m.contains_key(k) && k > len ==> !covers_target(m, k, target)
    }
}

proof fn lemma_below_monotone(m: Map<usize, u64>, a: nat, b: nat)
    requires
        a <= b,
    ensures
        seqs_below(m, a) <= seqs_below(m, b),
        bases_below(m, a) <= bases_below(m, b),
    decreases b - a,
{
    if a < b {
        lemma_below_monotone(m, a, (b - 1) as nat);
        assert((b - 1) as nat * count_of(m, (b - 1) as usize) >= 0) by (nonlinear_arith);
    }
}

/// Where `m` records no length in `[a, b)`, nothing changes between `a` and `b`.
proof fn lemma_below_gap(m: Map<usize, u64>, a: nat, b: nat)
    requires
        a <= b <= length_bound(),
        forall|k: usize| a <= k < b ==> !#[trigger] m.contains_key(k),
    ensures
        seqs_below(m, a) == seqs_below(m, b),
        bases_below(m, a) == bases_below(m, b),
    decreases b - a,
{
    if a < b {
        lemma_below_gap(m, a, (b - 1) as nat);
        assert(!m.contains_key((b - 1) as usize));
    }
}

spec fn ascending_entries_of(s: Seq<(usize, u64)>, m: Map<usize, u64>) -> bool {
    &&& forall|i: int, j: int| 0 <= i < j < s.len() ==> s[i].0 < s[j].0
    &&& forall|i: int| 0 <= i < s.len() ==> m.contains_key(#[trigger] s[i].0) && m[s[i].0] == s[i].1
    &&& forall|k: usize| #[trigger] m.contains_key(k) ==> exists|i: int| 0 <= i < s.len() && s[i].0 == k
}

fn sorted_entries(m: &BTreeMap<usize, u64>) -> (v: Vec<(usize, u64)>)
    ensures
        ascending_entries_of(v@, m@),
{
    let mut v: Vec<(usize, u64)> = Vec::new();
    let iter = m.iter();
    proof {
        assert(vstd::std_specs::btree::key_obeys_cmp_spec::<usize>());
    }
    let ghost s = iter.remaining();
    assert(s.len() == m@.dom().len());
    for kv in it: iter
        invariant
            v.len() == it.index(),
            it.seq() == s,
            forall|i: int| 0 <= i < v.len() ==> v[i] == (*it.seq()[i].0, *it.seq()[i].1),
    {
        v.push((*kv.0, *kv.1));
    }
    proof {
        let keys = s.map_values(|kv: (&usize, &u64)| *kv.0);
        assert(vstd::std_specs::btree::increasing_seq(keys));
        assert forall|i: int, j: int| 0 <= i < j < v.len() implies v@[i].0 < v@[j].0 by {
            assert(keys[i] == v@[i].0);
            assert(keys[j] == v@[j].0);
            assert(keys[i].cmp_spec(&keys[j]) is Less);
        }
        assert forall|i: int| 0 <= i < v.len() implies m@.contains_key(#[trigger] v@[i].0) && m@[v@[i].0] == v@[i].1 by {
            assert(m@.contains_key(*s[i].0));
        }
        assert forall|k: usize| #[trigger] m@.contains_key(k) implies exists|i: int| 0 <= i < v.len() && v@[i].0 == k by {
            assert(s.contains((&k, &m@[k])));
            let i = choose|i: int| 0 <= i < s.len() && s[i] == (&k, &m@[k]);
            assert(v@[i].0 == k);
        }
    }
    v
}

/// Just past the largest length among the first `i` entries of `s` (0 when `i` is 0).
spec fn bound_after(s: Seq<(usize, u64)>, i: int) -> nat {
    if i <= 0 {
        0
    } else {
        s[i - 1].0 as nat + 1
    }
}

/// The length of entry `i` of `s`, or the length bound past the last entry.
spec fn bound_at(s: Seq<(usize, u64)>, i: int) -> nat {
    if i < s.len() {
        s[i].0 as nat
    } else {
        length_bound()
    }
}

/// Between two neighbouring entries of an ascending listing, `m` records no length.
proof fn lemma_entries_gap(s: Seq<(usize, u64)>, m: Map<usize, u64>, i: int)
    requires
        ascending_entries_of(s, m),
        0 <= i <= s.len(),
    ensures
        bound_after(s, i) <= bound_at(s, i),
        forall|k: usize| bound_after(s, i) <= k < bound_at(s, i) ==> !#[trigger] m.contains_key(k),
{
    assert forall|k: usize| bound_after(s, i) <= k < bound_at(s, i) implies !#[trigger] m.contains_key(k) by {
        if m.contains_key(k) {
            let t = choose|t: int| 0 <= t < s.len() && s[t].0 == k;
            if t < i {
                if t < i - 1 {
                    assert(s[t].0 < s[i - 1].0);
                }
            } else if t > i {
                assert(s[i].0 < s[t].0);
            }
        }
    }
}

/// The sums of length times count and of counts over all of `length_counts`, or
/// `None` when either does not fit in a `u64`.
pub fn checked_total_counts(length_counts: &BTreeMap<usize, u64>) -> (r: Option<(u64, u64)>)
    ensures
        match r {
            Some(totals) => totals.0 == sum_bases(length_counts@) && totals.1 == sum_counts(
                length_counts@,
            ),
            None => sum_bases(length_counts@) > u64::MAX || sum_counts(length_counts@) > u64::MAX,
        },
{
    let entries = sorted_entries(length_counts);
    let ghost m = length_counts@;
    let mut bases_sum: u64 = 0;
    let mut seqs_sum: u64 = 0;
    let mut i: usize = 0;
    while i < entries.len()
        invariant
            m == length_counts@,
            ascending_entries_of(entries@, m),
            0 <= i <= entries.len(),
            bases_sum == bases_below(m, bound_after(entries@, i as int)),
            seqs_sum == seqs_below(m, bound_after(entries@, i as int)),
        decreases entries.len() - i,
    {
        let (length, count) = entries[i];
        proof {
            lemma_entries_gap(entries@, m, i as int);
            lemma_below_gap(m, bound_after(entries@, i as int), length as nat);
            assert(count_of(m, length) == count);
            assert(bound_after(entries@, i + 1) == length as nat + 1);
            assert(bases_below(m, length as nat + 1) == bases_below(m, length as nat) + length as nat
                * count as nat);
            assert(seqs_below(m, length as nat + 1) == seqs_below(m, length as nat) + count as nat);
            lemma_below_monotone(m, length as nat + 1, length_bound());
        }
        let length64 = length as u64;
        assert(length64 as nat == length as nat);
        let bases = match length64.checked_mul(count) {
            Some(b) => b,
            None => {
                return None;
            },
        };
        assert(bases as nat == length as nat * count as nat);
        let new_bases = match bases_sum.checked_add(bases) {
            Some(t) => t,
            None => {
                return None;
            },
        };
        let new_seqs = match seqs_sum.checked_add(count) {
            Some(t) => t,
            None => {
                return None;
            },
        };
        bases_sum = new_bases;
        seqs_sum = new_seqs;
        i = i + 1;
    }
    proof {
        lemma_entries_gap(entries@, m, i as int);
        lemma_below_gap(m, bound_after(entries@, i as int), length_bound());
    }
    Some((bases_sum, seqs_sum))
}

/// The total number of bases and of sequences in `length_counts`, as
/// (`total_bases`, `total_seqs`).
pub fn compute_total_counts(length_counts: &BTreeMap<usize, u64>) -> (r: (u64, u64))
    requires
        sum_bases(length_counts@) <= u64::MAX,
        sum_counts(length_counts@) <= u64::MAX,
    ensures
        r.0 == sum_bases(length_counts@),
        r.1 == sum_counts(length_counts@),
{
    match checked_total_counts(length_counts) {
        Some(totals) => totals,
        None => (0, 0),
    }
}

/// The median length of the sequences in `length_counts`: the length at index
/// `total_seqs / 2` of all lengths listed in ascending order. For an even number
/// of sequences this is the upper of the two middle lengths, not their mean.
/// It is 0 when there is no sequence.
pub fn compute_median_length(length_counts: &BTreeMap<usize, u64>, total_seqs: u64) -> (r: usize)
    requires
        total_seqs == sum_counts(length_counts@),
    ensures
        is_median_length(length_counts@, r),
{
    let entries = sorted_entries(length_counts);
    let ghost m = length_counts@;
    let middle_seq_index: u64 = total_seqs / 2;
    let mut total_observed: u64 = 0;
    let mut i: usize = 0;
    while i < entries.len()
        invariant
            m == length_counts@,
            total_seqs == sum_counts(m),
            middle_seq_index == total_seqs / 2,
            ascending_entries_of(entries@, m),
            0 <= i <= entries.len(),
            total_observed == seqs_below(m, bound_after(entries@, i as int)),
            total_observed <= middle_seq_index,
        decreases entries.len() - i,
    {
        let (length, count) = entries[i];
        proof {
            lemma_entries_gap(entries@, m, i as int);
            lemma_below_gap(m, bound_after(entries@, i as int), length as nat);
            assert(count_of(m, length) == count);
            assert(bound_after(entries@, i + 1) == length as nat + 1);
            assert(seqs_below(m, length as nat + 1) == seqs_below(m, length as nat) + count as nat);
            lemma_below_monotone(m, length as nat + 1, length_bound());
        }
        total_observed = total_observed + count;
        if total_observed > middle_seq_index {
            return length;
        }
        i = i + 1;
    }
    proof {
        lemma_entries_gap(entries@, m, i as int);
        lemma_below_gap(m, bound_after(entries@, i as int), length_bound());
    }
    0
}

/// The N-score of `length_counts` for `target` percent (N50 for 50): walking the
/// lengths from the longest down, the first length at which the bases seen so far
/// reach `target` percent of `total_bases`. It is 0 for an empty distribution.
/// The comparison is exact: `100 * bases_seen >= target * total_bases`.
pub fn compute_n_score(length_counts: &BTreeMap<usize, u64>, total_bases: u64, target: usize) -> (r:
    usize)
    requires
        total_bases == sum_bases(length_counts@),
        1 <= target <= 99,
    ensures
        is_n_score(length_counts@, target as nat, r),
{
    let entries = sorted_entries(length_counts);
    let ghost m = length_counts@;
    assert((target as u128) * (total_bases as u128) <= 99 * (u64::MAX as u128)) by (nonlinear_arith)
        requires
            target <= 99,
    ;
    let target_bases: u128 = (target as u128) * (total_bases as u128);
    let mut current_bases: u64 = 0;
    let mut i: usize = entries.len();
    proof {
        lemma_entries_gap(entries@, m, i as int);
    }
    while i > 0
        invariant
            m == length_counts@,
            total_bases == sum_bases(m),
            1 <= target <= 99,
            target_bases == target as nat * total_bases as nat,
            ascending_entries_of(entries@, m),
            0 <= i <= entries.len(),
            current_bases == sum_bases(m) - bases_below(m, bound_at(entries@, i as int)),
            forall|t: int| i <= t < entries.len() ==> !covers_target(m, #[trigger] entries@[t].0, target as nat),
        decreases i,
    {
        i = i - 1;
        let (length, count) = entries[i];
        proof {
            lemma_entries_gap(entries@, m, i + 1);
            assert(bound_after(entries@, i + 1) == length as nat + 1);
            lemma_below_gap(m, length as nat + 1, bound_at(entries@, i + 1));
            assert(count_of(m, length) == count);
            assert(bases_below(m, length as nat + 1) == bases_below(m, length as nat) + length as nat
                * count as nat);
            lemma_below_monotone(m, length as nat, length_bound());
            assert(bound_at(entries@, i as int) == length as nat);
        }
        let length64 = length as u64;
        assert(length64 as nat == length as nat);
        current_bases = current_bases + length64 * count;
        if (current_bases as u128) * 100 >= target_bases {
            return length;
        }
    }
    proof {
        lemma_entries_gap(entries@, m, 0);
        lemma_below_gap(m, 0, bound_at(entries@, 0));
        if entries.len() > 0 {
            let total = sum_bases(m);
            assert(100 * total >= target as nat * total) by (nonlinear_arith)
                requires
                    target <= 99,
            ;
            assert(covers_target(m, entries@[0].0, target as nat));
        }
        assert forall|k: usize| !m.contains_key(k) by {
            if m.contains_key(k) {
                let t = choose|t: int| 0 <= t < entries.len() && entries@[t].0 == k;
                assert(entries@[t] == entries@[t]);
            }
        }
        assert(m.dom() =~= Set::empty());
    }
    0
}

/// The summary of a length distribution. The mean length is
/// `total_bases / total_sequences`; it is left to the caller to compute, as it is not
/// an integer.
#[derive(Clone, Copy, Debug, PartialEq, Eq, Structural)]
pub struct LengthStats {
    /// The total number of bases analyzed
    pub total_bases: u64,
    /// The total number of sequences analyzed
    pub total_sequences: u64,
    /// The median length of the sequences
    pub median_length: usize,
    /// N10: 10% of the bases are in sequences of this length or longer
    pub n10: usize,
    /// N25: 25% of the bases are in sequences of this length or longer
    pub n25: usize,
    /// N50: 50% of the bases are in sequences of this length or longer
    pub n50: usize,
    /// N75: 75% of the bases are in sequences of this length or longer
    pub n75: usize,
    /// N90: 90% of the bases are in sequences of this length or longer
    pub n90: usize,
}

/// `s` is the summary of the distribution `m`.
pub open spec fn summarizes(s: LengthStats, m: Map<usize, u64>) -> bool {
    &&& s.total_bases == sum_bases(m)
    &&& s.total_sequences == sum_counts(m)
    &&& is_median_length(m, s.median_length)
    &&& is_n_score(m, 10, s.n10)
    &&& is_n_score(m, 25, s.n25)
    &&& is_n_score(m, 50, s.n50)
    &&& is_n_score(m, 75, s.n75)
    &&& is_n_score(m, 90, s.n90)
}

/// The totals, the median length and the N10, N25, N50, N75 and N90 scores of
/// `length_counts`.
pub fn compute_length_stats(length_counts: &BTreeMap<usize, u64>) -> (r: LengthStats)
    requires
        sum_bases(length_counts@) <= u64::MAX,
        sum_counts(length_counts@) <= u64::MAX,
    ensures
        summarizes(r, length_counts@),
{
    let (total_bases, total_seqs) = compute_total_counts(length_counts);
    let median_length = compute_median_length(length_counts, total_seqs);
    let n10 = compute_n_score(length_counts, total_bases, 10);
    let n25 = compute_n_score(length_counts, total_bases, 25);
    let n50 = compute_n_score(length_counts, total_bases, 50);
    let n75 = compute_n_score(length_counts, total_bases, 75);
    let n90 = compute_n_score(length_counts, total_bases, 90);
    LengthStats {
        total_bases,
        total_sequences: total_seqs,
        median_length,
        n10,
        n25,
        n50,
        n75,
        n90,
    }
}

} // verus!
