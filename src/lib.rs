/// A fixed-capacity byte buffer with a cursor and line-oriented scans.
pub mod buffer;
/// Nucleotide complements and the sample record count.
pub mod common;
/// The streaming FASTA/FASTQ length scanner and the automaton it follows.
pub mod parser;
/// Nx tables, length histograms and the length report.
pub mod stats;
/// Contig/gap decomposition of records at runs of `N`.
pub mod gaps;
/// Recognising gzip streams, record streams and lists of paths.
pub mod path;
