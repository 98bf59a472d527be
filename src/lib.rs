//! Sequence length statistics for FASTA/FASTQ files: record lengths are counted
//! into a length distribution (`tally`, `fastx_loader`), from which the totals,
//! the median length and the N-scores are computed (`length_stats`).

/// Reading the record lengths of FASTA/FASTQ data and merging several files.
pub mod fastx_loader;
/// The summary statistics of a length distribution.
pub mod length_stats;
/// Counting record lengths into a distribution, and the laws of that counting.
pub mod tally;
