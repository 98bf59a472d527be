use fastleng::fastx_loader::{
    gather_fastx_stats, gather_fastx_stats_with_seed, gather_multifastx_stats, LoadError,
};
use std::collections::BTreeMap;

/// A FASTA file with one record per sequence.
fn fasta(seqs: &[String]) -> Vec<u8> {
    let mut out = String::new();
    for (i, seq) in seqs.iter().enumerate() {
        out.push_str(&format!(">seq{}\n", i + 1));
        // long sequences are wrapped over several lines, as FASTA writers do
        let bytes = seq.as_bytes();
        for chunk in bytes.chunks(80) {
            out.push_str(std::str::from_utf8(chunk).unwrap());
            out.push('\n');
        }
    }
    out.into_bytes()
}

fn bases(n: usize) -> String {
    "ACGT".repeat(n / 4 + 1)[..n].to_string()
}

/// ./test_data/single_string.fa: a single sequence "A"
fn single_string_fa() -> Vec<u8> {
    fasta(&["A".to_string()])
}

/// ./test_data/five_strings.fa: one of each length from 1-5
fn five_strings_fa() -> Vec<u8> {
    fasta(&(1..6).map(bases).collect::<Vec<_>>())
}

/// ./test_data/small_strings.fa: a mix of a few lengths from 1-4
fn small_strings_fa() -> Vec<u8> {
    fasta(&[1, 4, 2, 1, 3, 2, 4, 1].iter().map(|n| bases(*n)).collect::<Vec<_>>())
}

/// ./test_data/long_strings.fa: some longer strings
fn long_strings_fa() -> Vec<u8> {
    fasta(&[50, 100, 150, 1000, 150, 100, 50].iter().map(|n| bases(*n)).collect::<Vec<_>>())
}

/// ./test_data/panic_file.fa: not a FASTA or FASTQ file
fn panic_file_fa() -> Vec<u8> {
    b"this is not a sequence file\n".to_vec()
}

/// This one is a single sequence "A"
fn stats_basic_fasta() -> BTreeMap<usize, u64> {
    let mut results: BTreeMap<usize, u64> = BTreeMap::new();
    results.insert(1, 1);
    results
}

/// one of each length from 1-5
fn stats_basic_fasta2() -> BTreeMap<usize, u64> {
    let mut results: BTreeMap<usize, u64> = BTreeMap::new();
    for l in 1..6 {
        results.insert(l, 1);
    }
    results
}

/// mix of a few lengths from 1-4
fn stats_basic_fasta3() -> BTreeMap<usize, u64> {
    let mut results: BTreeMap<usize, u64> = BTreeMap::new();
    results.insert(1, 3);
    results.insert(2, 2);
    results.insert(3, 1);
    results.insert(4, 2);
    results
}

/// some longer strings
fn stats_basic_fasta4() -> BTreeMap<usize, u64> {
    let mut results: BTreeMap<usize, u64> = BTreeMap::new();
    results.insert(50, 2);
    results.insert(100, 2);
    results.insert(150, 2);
    results.insert(1000, 1);
    results
}

#[test]
fn test_basic_fasta() {
    let expected = stats_basic_fasta();
    let hash_stats = gather_fastx_stats(&single_string_fa()).unwrap();
    assert_eq!(hash_stats, expected);
}

#[test]
fn test_basic_fasta2() {
    let expected = stats_basic_fasta2();
    let hash_stats = gather_fastx_stats(&five_strings_fa()).unwrap();
    assert_eq!(hash_stats, expected);
}

#[test]
fn test_basic_fasta3() {
    let expected = stats_basic_fasta3();
    let hash_stats = gather_fastx_stats(&small_strings_fa()).unwrap();
    assert_eq!(hash_stats, expected);
}

#[test]
fn test_basic_fasta4() {
    let expected = stats_basic_fasta4();
    let hash_stats = gather_fastx_stats(&long_strings_fa()).unwrap();
    assert_eq!(hash_stats, expected);
}

#[test]
#[should_panic]
fn fastx_loader_test_error_handling() {
    let _hash_stats = gather_fastx_stats(&panic_file_fa()).unwrap();
}

#[test]
fn fastx_loader_test_multifastx() {
    let files = [single_string_fa(), five_strings_fa(), small_strings_fa(), long_strings_fa()];

    let expected_list = [
        stats_basic_fasta(),
        stats_basic_fasta2(),
        stats_basic_fasta3(),
        stats_basic_fasta4(),
    ];

    //sum the expected outputs
    let mut expected: BTreeMap<usize, u64> = BTreeMap::new();
    for results in expected_list.iter() {
        for (key, value) in results.iter() {
            let len_count: &mut u64 = expected.entry(*key).or_insert(0);
            *len_count += value;
        }
    }

    let hash_stats = gather_multifastx_stats(&files).unwrap();
    assert_eq!(hash_stats, expected);
}

#[test]
#[should_panic]
fn fastx_loader_test_multifastx_error_handling() {
    let files = [single_string_fa(), panic_file_fa()];
    let _hash_stats = gather_multifastx_stats(&files).unwrap();
}

#[test]
fn fastq_records_are_counted() {
    let data = b"@r1\nACGT\n+\nIIII\n@r2\nAC\n+\nII\n@r3\nACGT\n+\nIIII\n".to_vec();
    let mut expected: BTreeMap<usize, u64> = BTreeMap::new();
    expected.insert(2, 1);
    expected.insert(4, 2);
    assert_eq!(gather_fastx_stats(&data).unwrap(), expected);
}

#[test]
fn parse_error_is_reported() {
    assert!(matches!(gather_fastx_stats(&panic_file_fa()), Err(LoadError::Parse(_))));
    assert!(matches!(gather_fastx_stats(b""), Err(LoadError::Parse(_))));
}

#[test]
fn seed_counts_are_kept() {
    let mut seed: BTreeMap<usize, u64> = BTreeMap::new();
    seed.insert(1, 5);
    seed.insert(7, 2);
    let counts = gather_fastx_stats_with_seed(&five_strings_fa(), Some(seed)).unwrap();
    let mut expected = stats_basic_fasta2();
    expected.insert(1, 6);
    expected.insert(7, 2);
    assert_eq!(counts, expected);
}

#[test]
fn count_overflow_is_reported() {
    let mut seed: BTreeMap<usize, u64> = BTreeMap::new();
    seed.insert(1, u64::MAX);
    let r = gather_fastx_stats_with_seed(&single_string_fa(), Some(seed));
    assert!(matches!(r, Err(LoadError::CountOverflow)));
    // a length that is not full yet is still counted
    let mut seed: BTreeMap<usize, u64> = BTreeMap::new();
    seed.insert(2, u64::MAX);
    let counts = gather_fastx_stats_with_seed(&single_string_fa(), Some(seed)).unwrap();
    assert_eq!(counts.get(&1), Some(&1));
    assert_eq!(counts.get(&2), Some(&u64::MAX));
}

#[test]
fn multifastx_names_the_failing_file() {
    let files = [single_string_fa(), five_strings_fa(), panic_file_fa(), long_strings_fa()];
    let err = gather_multifastx_stats(&files).unwrap_err();
    assert_eq!(err.index, 2);
    assert!(matches!(err.error, LoadError::Parse(_)));
    let none: [Vec<u8>; 0] = [];
    assert_eq!(gather_multifastx_stats(&none).unwrap(), BTreeMap::new());
}

#[test]
fn merge_order_does_not_matter() {
    let ab = gather_multifastx_stats(&[small_strings_fa(), long_strings_fa()]).unwrap();
    let ba = gather_multifastx_stats(&[long_strings_fa(), small_strings_fa()]).unwrap();
    assert_eq!(ab, ba);
}

#[test]
fn merge_equals_concatenated_file() {
    let mut joined = five_strings_fa();
    joined.extend_from_slice(&small_strings_fa());
    let merged = gather_multifastx_stats(&[five_strings_fa(), small_strings_fa()]).unwrap();
    let single = gather_fastx_stats(&joined).unwrap();
    assert_eq!(merged, single);
}

#[test]
fn record_order_does_not_matter() {
    let forward = fasta(&[3, 1, 4, 1, 5].iter().map(|n| bases(*n)).collect::<Vec<_>>());
    let backward = fasta(&[5, 1, 4, 1, 3].iter().map(|n| bases(*n)).collect::<Vec<_>>());
    assert_eq!(gather_fastx_stats(&forward).unwrap(), gather_fastx_stats(&backward).unwrap());
}
