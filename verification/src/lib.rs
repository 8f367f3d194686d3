//! Alignment-free quantification of transcripts, as far as it is exact: the
//! index of reference transcripts by the edges of their k-mers, the
//! transcripts that each read is compatible with, and the equivalence classes
//! that sum up a set of reads for the estimation of abundances.
//!
//! - [`k_mer_utils`]: the windows of a sequence and the edges between their
//!   halves.
//! - [`file_parser_utils`]: records, and how they are read from the lines of
//!   FASTA and FASTQ texts.
//! - [`compatibility`]: what the index holds and what a read is compatible
//!   with, stated over plain sequences, and what follows from that.
//! - [`positions`]: sets of transcript positions as increasing vectors.
//! - [`adjacency`]: the graph between the halves of the windows.
//! - [`de_bruijn_graph`]: the index itself, and the resolution of reads.
//! - [`equivalence_classes`]: reads grouped by compatibility, with counts.

pub mod adjacency;
pub mod compatibility;
pub mod de_bruijn_graph;
pub mod equivalence_classes;
pub mod file_parser_utils;
pub mod k_mer_utils;
pub mod positions;
