use crate::length_stats::{
    bases_below, count_of, is_median_length, is_n_score, length_bound, seqs_below, sum_bases, sum_counts,
};
use std::collections::BTreeMap;
use vstd::multiset::Multiset;
use vstd::prelude::*;

verus! {

broadcast use vstd::seq_lib::group_to_multiset_ensures;

/// `r` is `seed` with one more sequence for each entry of `lengths`: it records
/// the lengths of `seed` and those of `lengths`, each with its count in `seed`
/// plus its number of occurrences in `lengths`.
pub open spec fn tallies(r: Map<usize, u64>, seed: Map<usize, u64>, lengths: Seq<usize>) -> bool {
    &&& forall|k: usize| #[trigger]
        r.contains_key(k) <==> seed.contains_key(k) || lengths.to_multiset().count(k) > 0
    &&& forall|k: usize| #[trigger]
        count_of(r, k) == count_of(seed, k) + lengths.to_multiset().count(k)
}

/// Each count of `seed`, plus the occurrences of its length in `lengths`, fits in a `u64`.
pub open spec fn tally_fits(seed: Map<usize, u64>, lengths: Seq<usize>) -> bool {
    forall|k: usize| #[trigger] count_of(seed, k) + lengths.to_multiset().count(k) <= u64::MAX
}

/// The counts a tally starts from: the given seed, or none at all.
pub open spec fn seed_counts(seed: Option<BTreeMap<usize, u64>>) -> Map<usize, u64> {
    match seed {
        Some(m) => m@,
        None => Map::empty(),
    }
}

/// Records one more sequence of length `length` in `counts`. Returns `false`, and
/// leaves `counts` as it was, when that count is already `u64::MAX`.
pub fn add_length(counts: &mut BTreeMap<usize, u64>, length: usize) -> (added: bool)
    ensures
        added == (count_of(old(counts)@, length) < u64::MAX),
        added ==> tallies(final(counts)@, old(counts)@, seq![length]),
        !added ==> final(counts)@ == old(counts)@,
{
    let current: u64 = match counts.get(&length) {
        Some(c) => *c,
        None => 0,
    };
    if current == u64::MAX {
        return false;
    }
    counts.insert(length, current + 1);
    proof {
        let ms = seq![length].to_multiset();
        assert(seq![length] == Seq::<usize>::empty().push(length));
        assert(ms =~= Multiset::<usize>::empty().insert(length));
    }
    true
}

/// Tallying no lengths leaves the counts as they are.
pub proof fn lemma_tallies_nothing(m: Map<usize, u64>)
    ensures
        tallies(m, m, Seq::empty()),
{
    assert(Seq::<usize>::empty().to_multiset() =~= Multiset::empty());
}

/// Tallying `a` and then `b` onto what came of `a` is tallying `a + b` at once.
pub proof fn lemma_tallies_chain(
    seed: Map<usize, u64>,
    a: Seq<usize>,
    b: Seq<usize>,
    after_a: Map<usize, u64>,
    after_ab: Map<usize, u64>,
)
    requires
        tallies(after_a, seed, a),
        tallies(after_ab, after_a, b),
    ensures
        tallies(after_ab, seed, a + b),
{
    vstd::seq_lib::lemma_multiset_commutative(a, b);
    assert forall|k: usize| #[trigger] after_ab.contains_key(k) <==> seed.contains_key(k) || (a
        + b).to_multiset().count(k) > 0 by {
        assert(after_a.contains_key(k) <==> seed.contains_key(k) || a.to_multiset().count(k) > 0);
    }
    assert forall|k: usize| #[trigger] count_of(after_ab, k) == count_of(seed, k) + (a
        + b).to_multiset().count(k) by {
        assert(count_of(after_a, k) == count_of(seed, k) + a.to_multiset().count(k));
    }
}

/// A tally of `lengths` onto `seed` is one map: the counts and lengths pin it down.
pub proof fn lemma_tallies_unique(
    seed: Map<usize, u64>,
    lengths: Seq<usize>,
    r1: Map<usize, u64>,
    r2: Map<usize, u64>,
)
    requires
        tallies(r1, seed, lengths),
        tallies(r2, seed, lengths),
    ensures
        r1 == r2,
{
    assert forall|k: usize| r1.contains_key(k) implies r1[k] == r2[k] by {
        assert(count_of(r1, k) == count_of(r2, k));
        assert(r2.contains_key(k));
    }
    assert(r1.dom() =~= r2.dom()) by {
        assert forall|k: usize| r1.contains_key(k) <==> r2.contains_key(k) by {}
    }
    assert(r1 =~= r2);
}

/// After tallying `a`, there is room for `b` exactly when there is room for `a + b`
/// from the start.
pub proof fn lemma_fits_chain(seed: Map<usize, u64>, a: Seq<usize>, b: Seq<usize>, after_a: Map<usize, u64>)
    requires
        tallies(after_a, seed, a),
    ensures
        tally_fits(after_a, b) <==> tally_fits(seed, a + b),
{
    vstd::seq_lib::lemma_multiset_commutative(a, b);
    if tally_fits(after_a, b) {
        assert forall|k: usize| #[trigger] count_of(seed, k) + (a + b).to_multiset().count(k) <= u64::MAX by {
            assert(count_of(after_a, k) + b.to_multiset().count(k) <= u64::MAX);
        }
    }
    if tally_fits(seed, a + b) {
        assert forall|k: usize| #[trigger] count_of(after_a, k) + b.to_multiset().count(k) <= u64::MAX by {
            assert(count_of(seed, k) + (a + b).to_multiset().count(k) <= u64::MAX);
        }
    }
}

/// `counts` with one more sequence for each entry of `lengths`, or `None` when a
/// count would pass `u64::MAX`.
pub fn tally_lengths(counts: BTreeMap<usize, u64>, lengths: &Vec<usize>) -> (r: Option<
    BTreeMap<usize, u64>,
>)
    ensures
        match r {
            Some(m) => tallies(m@, counts@, lengths@),
            None => !tally_fits(counts@, lengths@),
        },
{
    let ghost seed = counts@;
    let mut tally = counts;
    let mut i: usize = 0;
    proof {
        assert(lengths@.take(0) =~= Seq::<usize>::empty());
        lemma_tallies_nothing(seed);
    }
    while i < lengths.len()
        invariant
            0 <= i <= lengths.len(),
            seed == counts@,
            tallies(tally@, seed, lengths@.take(i as int)),
        decreases lengths.len() - i,
    {
        let length = lengths[i];
        let ghost before = tally@;
        let added = add_length(&mut tally, length);
        proof {
            let done = lengths@.take(i as int);
            let rest = lengths@.skip(i as int + 1);
            assert(lengths@.take(i as int + 1) =~= done + seq![length]);
            assert(lengths@ =~= (done + seq![length]) + rest);
            lemma_fits_chain(seed, done, seq![length], before);
            vstd::seq_lib::lemma_multiset_commutative(done + seq![length], rest);
            if added {
                lemma_tallies_chain(seed, done, seq![length], before, tally@);
            } else {
                assert(seq![length].to_multiset().count(length) == 1) by {
                    assert(seq![length] =~= Seq::<usize>::empty().push(length));
                }
                assert(!tally_fits(before, seq![length]));
                assert(!tally_fits(seed, done + seq![length]));
                let k = choose|k: usize| !(count_of(seed, k) + (done + seq![length]).to_multiset().count(k) <= u64::MAX);
                assert(count_of(seed, k) + lengths@.to_multiset().count(k) > u64::MAX);
            }
        }
        if !added {
            return None;
        }
        i = i + 1;
    }
    proof {
        assert(lengths@.take(i as int) =~= lengths@);
    }
    Some(tally)
}

/// Whether a record raises the aligned-input warning: it is aligned, and its file
/// has not warned before.
pub open spec fn warns(warned: bool, aligned: bool) -> bool {
    aligned && !warned
}

/// Whether a file has warned, starting from `warned`, after records with the
/// alignment flags `aligned`.
pub open spec fn warned_after(warned: bool, aligned: Seq<bool>) -> bool
    decreases aligned.len(),
{
    if aligned.len() == 0 {
        warned
    } else {
        warned_after(warned, aligned.drop_last()) || aligned.last()
    }
}

/// How many warnings records with the alignment flags `aligned` raise, one after
/// another, starting from `warned`.
pub open spec fn warnings_raised(warned: bool, aligned: Seq<bool>) -> nat
    decreases aligned.len(),
{
    if aligned.len() == 0 {
        0
    } else {
        warnings_raised(warned, aligned.drop_last()) + if warns(
            warned_after(warned, aligned.drop_last()),
            aligned.last(),
        ) {
            1nat
        } else {
            0nat
        }
    }
}

/// One file's tally in progress: the counts so far, and whether the file has
/// shown an aligned record yet.
pub struct LengthTally {
    pub counts: BTreeMap<usize, u64>,
    pub warned: bool,
}

impl LengthTally {
    /// A tally for a new file, starting from `seed` or from no counts at all.
    pub fn new(seed: Option<BTreeMap<usize, u64>>) -> (r: LengthTally)
        ensures
            r.counts@ == seed_counts(seed),
            !r.warned,
    {
        let counts = match seed {
            Some(m) => m,
            None => BTreeMap::new(),
        };
        LengthTally { counts, warned: false }
    }

    /// Counts one record of length `length`, whether it is aligned or not. Returns
    /// `Some(true)` for the file's first aligned record, on which the caller warns
    /// once, and `Some(false)` for any other. Returns `None`, and changes nothing,
    /// when the count of that length is already `u64::MAX`.
    pub fn add_record(&mut self, length: usize, aligned: bool) -> (r: Option<bool>)
        ensures
            r is Some <==> count_of(old(self).counts@, length) < u64::MAX,
            match r {
                Some(warn) => {
                    &&& warn == warns(old(self).warned, aligned)
                    &&& final(self).warned == (old(self).warned || aligned)
                    &&& tallies(final(self).counts@, old(self).counts@, seq![length])
                },
                None => final(self).counts@ == old(self).counts@ && final(self).warned == old(
                    self,
                ).warned,
            },
    {
        if !add_length(&mut self.counts, length) {
            return None;
        }
        let warn = aligned && !self.warned;
        if aligned {
            self.warned = true;
        }
        Some(warn)
    }

    /// The counts of the tally.
    pub fn into_counts(self) -> (r: BTreeMap<usize, u64>)
        ensures
            r@ == self.counts@,
    {
        self.counts
    }
}

/// A file warns once if any of its records is aligned, and never otherwise,
/// however many aligned records follow the first.
pub proof fn lemma_one_warning_per_file(aligned: Seq<bool>)
    ensures
        warnings_raised(false, aligned) == (if aligned.contains(true) {
            1nat
        } else {
            0nat
        }),
        warned_after(false, aligned) == aligned.contains(true),
    decreases aligned.len(),
{
    if aligned.len() > 0 {
        let prior = aligned.drop_last();
        lemma_one_warning_per_file(prior);
        assert(aligned =~= prior.push(aligned.last()));
        if prior.contains(true) {
            let i = choose|i: int| 0 <= i < prior.len() && prior[i] == true;
            assert(aligned[i] == true);
        }
        if aligned.contains(true) && !aligned.last() {
            let i = choose|i: int| 0 <= i < aligned.len() && aligned[i] == true;
            assert(prior[i] == true);
        }
    }
}

/// The order of the records does not matter: the same lengths in another order
/// give the same distribution, so the same totals, median and N-scores.
pub proof fn lemma_order_independent(
    seed: Map<usize, u64>,
    lengths1: Seq<usize>,
    lengths2: Seq<usize>,
    r1: Map<usize, u64>,
    r2: Map<usize, u64>,
)
    requires
        tallies(r1, seed, lengths1),
        tallies(r2, seed, lengths2),
        lengths1.to_multiset() == lengths2.to_multiset(),
    ensures
        r1 == r2,
        sum_bases(r1) == sum_bases(r2),
        sum_counts(r1) == sum_counts(r2),
        forall|len: usize| is_median_length(r1, len) <==> is_median_length(r2, len),
        forall|target: nat, len: usize| is_n_score(r1, target, len) <==> is_n_score(r2, target, len),
{
    lemma_tallies_unique(seed, lengths1, r1, r2);
}

/// Merging the files `a` then `b` gives the same distribution as `b` then `a`.
pub proof fn lemma_merge_commutes(
    seed: Map<usize, u64>,
    a: Seq<usize>,
    b: Seq<usize>,
    after_a: Map<usize, u64>,
    after_ab: Map<usize, u64>,
    after_b: Map<usize, u64>,
    after_ba: Map<usize, u64>,
)
    requires
        tallies(after_a, seed, a),
        tallies(after_ab, after_a, b),
        tallies(after_b, seed, b),
        tallies(after_ba, after_b, a),
    ensures
        after_ab == after_ba,
{
    lemma_tallies_chain(seed, a, b, after_a, after_ab);
    lemma_tallies_chain(seed, b, a, after_b, after_ba);
    vstd::seq_lib::lemma_multiset_commutative(a, b);
    vstd::seq_lib::lemma_multiset_commutative(b, a);
    assert((a + b).to_multiset() =~= (b + a).to_multiset());
    lemma_tallies_unique(seed, a + b, after_ab, after_ba);
}

/// Merging the file `a` and then the file `b` gives what counting one file holding
/// the records of `a` followed by those of `b` gives, so the same totals, median
/// and N-scores.
pub proof fn lemma_merge_is_concatenation(
    seed: Map<usize, u64>,
    a: Seq<usize>,
    b: Seq<usize>,
    after_a: Map<usize, u64>,
    after_ab: Map<usize, u64>,
    whole: Map<usize, u64>,
)
    requires
        tallies(after_a, seed, a),
        tallies(after_ab, after_a, b),
        tallies(whole, seed, a + b),
    ensures
        after_ab == whole,
        sum_bases(after_ab) == sum_bases(whole),
        sum_counts(after_ab) == sum_counts(whole),
        forall|len: usize| is_median_length(after_ab, len) <==> is_median_length(whole, len),
        forall|target: nat, len: usize| is_n_score(after_ab, target, len) <==> is_n_score(whole, target, len),
{
    lemma_tallies_chain(seed, a, b, after_a, after_ab);
    lemma_tallies_unique(seed, a + b, after_ab, whole);
}

/// The sum of the entries of `lengths`.
pub open spec fn sum_of_lengths(lengths: Seq<usize>) -> nat
    decreases lengths.len(),
{
    if lengths.len() == 0 {
        0
    } else {
        sum_of_lengths(lengths.drop_last()) + lengths.last() as nat
    }
}

/// How many entries of `lengths` are below `n`.
spec fn occurrences_below(lengths: Seq<usize>, n: nat) -> nat
    decreases n,
{
    if n == 0 {
        0
    } else {
        occurrences_below(lengths, (n - 1) as nat) + lengths.to_multiset().count((n - 1) as usize)
    }
}

/// The sum of the entries of `lengths` that are below `n`.
spec fn length_sum_below(lengths: Seq<usize>, n: nat) -> nat
    decreases n,
{
    if n == 0 {
        0
    } else {
        length_sum_below(lengths, (n - 1) as nat) + (n - 1) as nat * lengths.to_multiset().count(
            (n - 1) as usize,
        )
    }
}

proof fn lemma_tally_below(r: Map<usize, u64>, seed: Map<usize, u64>, lengths: Seq<usize>, n: nat)
    requires
        tallies(r, seed, lengths),
        n <= length_bound(),
    ensures
        seqs_below(r, n) == seqs_below(seed, n) + occurrences_below(lengths, n),
        bases_below(r, n) == bases_below(seed, n) + length_sum_below(lengths, n),
    decreases n,
{
    if n > 0 {
        let k = (n - 1) as usize;
        lemma_tally_below(r, seed, lengths, (n - 1) as nat);
        assert(count_of(r, k) == count_of(seed, k) + lengths.to_multiset().count(k));
        assert(k as nat * count_of(r, k) == k as nat * count_of(seed, k) + k as nat
            * lengths.to_multiset().count(k)) by (nonlinear_arith)
            requires
                count_of(r, k) == count_of(seed, k) + lengths.to_multiset().count(k),
        ;
    }
}

proof fn lemma_below_of_push(lengths: Seq<usize>, x: usize, n: nat)
    requires
        n <= length_bound(),
    ensures
        occurrences_below(lengths.push(x), n) == occurrences_below(lengths, n) + if x < n {
            1nat
        } else {
            0nat
        },
        length_sum_below(lengths.push(x), n) == length_sum_below(lengths, n) + if x < n {
            x as nat
        } else {
            0nat
        },
    decreases n,
{
    if n > 0 {
        let k = (n - 1) as usize;
        lemma_below_of_push(lengths, x, (n - 1) as nat);
        let before = lengths.to_multiset().count(k);
        let after = lengths.push(x).to_multiset().count(k);
        assert(after == before + if k == x {
            1nat
        } else {
            0nat
        });
        assert(k as nat * after == k as nat * before + if k == x {
            k as nat
        } else {
            0nat
        }) by (nonlinear_arith)
            requires
                after == before + if k == x {
                    1nat
                } else {
                    0nat
                },
        ;
    }
}

proof fn lemma_below_of_empty(n: nat)
    ensures
        occurrences_below(Seq::empty(), n) == 0,
        length_sum_below(Seq::empty(), n) == 0,
    decreases n,
{
    if n > 0 {
        lemma_below_of_empty((n - 1) as nat);
        assert(Seq::<usize>::empty().to_multiset() =~= Multiset::empty());
    }
}

proof fn lemma_below_whole(lengths: Seq<usize>)
    ensures
        occurrences_below(lengths, length_bound()) == lengths.len(),
        length_sum_below(lengths, length_bound()) == sum_of_lengths(lengths),
    decreases lengths.len(),
{
    if lengths.len() == 0 {
        assert(lengths =~= Seq::empty());
        lemma_below_of_empty(length_bound());
    } else {
        let prior = lengths.drop_last();
        lemma_below_whole(prior);
        assert(lengths =~= prior.push(lengths.last()));
        lemma_below_of_push(prior, lengths.last(), length_bound());
    }
}

/// Counting records from nothing gives as many sequences as there are records,
/// and as many bases as their lengths add up to.
pub proof fn lemma_totals_of_records(lengths: Seq<usize>, m: Map<usize, u64>)
    requires
        tallies(m, Map::empty(), lengths),
    ensures
        sum_counts(m) == lengths.len(),
        sum_bases(m) == sum_of_lengths(lengths),
{
    lemma_tally_below(m, Map::empty(), lengths, length_bound());
    lemma_below_of_no_counts(length_bound());
    lemma_below_whole(lengths);
}

proof fn lemma_below_of_no_counts(n: nat)
    ensures
        seqs_below(Map::empty(), n) == 0,
        bases_below(Map::empty(), n) == 0,
    decreases n,
{
    if n > 0 {
        lemma_below_of_no_counts((n - 1) as nat);
        assert(count_of(Map::empty(), (n - 1) as usize) == 0);
        assert((n - 1) as nat * 0nat == 0) by (nonlinear_arith);
    }
}

} // verus!
