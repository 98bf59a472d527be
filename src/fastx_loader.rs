use crate::length_stats::count_of;
use crate::tally::{lemma_fits_chain, lemma_tallies_chain, lemma_tallies_nothing, seed_counts, tallies, tally_fits, tally_lengths};
use std::collections::BTreeMap;
use vstd::prelude::*;

verus! {

/// The lengths, in bases, of the records of a FASTA or FASTQ file with the bytes
/// `data` (plain or compressed), in file order; `None` when the bytes do not parse.
pub uninterp spec fn fastx_lengths(data: Seq<u8>) -> Option<Seq<usize>>;

#[verifier::external_type_specification]
#[verifier::external_body]
pub struct ExParseError(needletail::errors::ParseError);

/// Relies on `needletail::parse_fastx_reader`, which detects the compression and
/// the format from the bytes, and on the reader's `next` and the records'
/// `num_bases`: the lengths of all records in order, or the first parse error.
/// The reader is a `Box<dyn FastxReader>`, which has no declaration here, so the
/// walk over its records stays inside this item.
#[verifier::external_body]
fn fastx_record_lengths(data: &[u8]) -> (r: Result<Vec<usize>, needletail::errors::ParseError>)
    ensures
        match r {
            Ok(lengths) => fastx_lengths(data@) == Some(lengths@),
            Err(_) => fastx_lengths(data@) is None,
        },
{
    let mut reader = needletail::parse_fastx_reader(data)?;
    let mut lengths = Vec::new();
    while let Some(record) = reader.next() {
        lengths.push(record?.num_bases());
    }
    Ok(lengths)
}

/// Why one file could not be counted.
#[derive(Debug)]
pub enum LoadError {
    /// The bytes are not a FASTA or FASTQ file, or a record is malformed.
    Parse(needletail::errors::ParseError),
    /// A count would pass `u64::MAX`.
    CountOverflow,
}

/// Why a list of files could not be counted: the first file that failed, by its
/// position in the list, and how.
#[derive(Debug)]
pub struct FileError {
    pub index: usize,
    pub error: LoadError,
}

/// What loading one file with the bytes `data` onto `seed` gives: the tally of its
/// records, a parse error, or a count overflow.
pub open spec fn loads_as(
    r: Result<BTreeMap<usize, u64>, LoadError>,
    data: Seq<u8>,
    seed: Map<usize, u64>,
) -> bool {
    match (fastx_lengths(data), r) {
        (None, Err(LoadError::Parse(_))) => true,
        (Some(lengths), Ok(m)) => tallies(m@, seed, lengths),
        (Some(lengths), Err(LoadError::CountOverflow)) => !tally_fits(seed, lengths),
        _ => false,
    }
}

/// The record lengths of the first `n` of `files`, one file after another, or `None`
/// when one of them does not parse.
pub open spec fn lengths_of_files(files: Seq<Vec<u8>>, n: nat) -> Option<Seq<usize>>
    decreases n,
{
    if n == 0 {
        Some(Seq::empty())
    } else {
        match (lengths_of_files(files, (n - 1) as nat), fastx_lengths(files[n - 1]@)) {
            (Some(before), Some(last)) => Some(before + last),
            _ => None,
        }
    }
}

/// Counts the record lengths of the FASTA or FASTQ file with the bytes `data`
/// onto `initial_counts`, or onto no counts at all.
pub fn gather_fastx_stats_with_seed(
    data: &[u8],
    initial_counts: Option<BTreeMap<usize, u64>>,
) -> (r: Result<BTreeMap<usize, u64>, LoadError>)
    ensures
        loads_as(r, data@, seed_counts(initial_counts)),
{
    let counts: BTreeMap<usize, u64> = match initial_counts {
        Some(ic) => ic,
        None => BTreeMap::new(),
    };
    let lengths = match fastx_record_lengths(data) {
        Ok(lengths) => lengths,
        Err(e) => {
            return Err(LoadError::Parse(e));
        },
    };
    match tally_lengths(counts, &lengths) {
        Some(m) => Ok(m),
        None => Err(LoadError::CountOverflow),
    }
}

/// Counts the record lengths of the FASTA or FASTQ file with the bytes `data`.
pub fn gather_fastx_stats(data: &[u8]) -> (r: Result<BTreeMap<usize, u64>, LoadError>)
    ensures
        loads_as(r, data@, Map::empty()),
{
    gather_fastx_stats_with_seed(data, None)
}

/// Loading `files` stopped at the file at `index` with `error`: every file before it
/// parsed and their counts fit, and that file does not parse or its counts pass
/// `u64::MAX`.
pub open spec fn fails_at(files: Seq<Vec<u8>>, index: nat, error: LoadError) -> bool {
    &&& index < files.len()
    &&& match lengths_of_files(files, index) {
        Some(before) => {
            &&& tally_fits(Map::empty(), before)
            &&& match (fastx_lengths(files[index as int]@), error) {
                (None, LoadError::Parse(_)) => true,
                (Some(lengths), LoadError::CountOverflow) => !tally_fits(Map::empty(), before + lengths),
                _ => false,
            }
        },
        None => false,
    }
}

/// Counts the record lengths of all of `files` into one distribution, one file after
/// another. Stops at the first file that fails, and says which.
pub fn gather_multifastx_stats(files: &[Vec<u8>]) -> (r: Result<BTreeMap<usize, u64>, FileError>)
    ensures
        match r {
            Ok(m) => match lengths_of_files(files@, files@.len()) {
                Some(all) => tallies(m@, Map::empty(), all),
                None => false,
            },
            Err(e) => fails_at(files@, e.index as nat, e.error),
        },
{
    let mut hash_stats: BTreeMap<usize, u64> = BTreeMap::new();
    let ghost mut done: Seq<usize> = Seq::empty();
    let mut i: usize = 0;
    proof {
        assert(hash_stats@ =~= Map::empty());
        lemma_tallies_nothing(Map::empty());
    }
    while i < files.len()
        invariant
            0 <= i <= files.len(),
            lengths_of_files(files@, i as nat) == Some(done),
            tallies(hash_stats@, Map::empty(), done),
        decreases files.len() - i,
    {
        let ghost before = hash_stats@;
        let ghost data = files@[i as int]@;
        let result = gather_fastx_stats_with_seed(files[i].as_slice(), Some(hash_stats));
        proof {
            assert forall|k: usize| #[trigger] count_of(Map::<usize, u64>::empty(), k) + done.to_multiset().count(k) <= u64::MAX by {
                assert(count_of(before, k) <= u64::MAX);
            }
        }
        match result {
            Ok(m) => {
                proof {
                    let lengths = fastx_lengths(data)->Some_0;
                    lemma_tallies_chain(Map::empty(), done, lengths, before, m@);
                    done = done + lengths;
                }
                hash_stats = m;
            },
            Err(e) => {
                proof {
                    if let LoadError::CountOverflow = e {
                        lemma_fits_chain(Map::empty(), done, fastx_lengths(data)->Some_0, before);
                    }
                }
                return Err(FileError { index: i, error: e });
            },
        }
        i = i + 1;
    }
    Ok(hash_stats)
}

} // verus!
