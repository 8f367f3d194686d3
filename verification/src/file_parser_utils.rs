//! Sequence records: named reference sequences and sequencing reads.

use crate::k_mer_utils::texts;
use vstd::prelude::*;
use vstd::string::*;

verus! {

/// A named sequence as plain values: what a [`Fasta`] record holds.
pub struct Record {
    pub header: Seq<char>,
    pub sequence: Seq<char>,
}

/// A sequencing read as plain values: what a [`Fastq`] record holds.
pub struct ReadRecord {
    pub header: Seq<char>,
    pub sequence: Seq<char>,
    pub quality: Seq<char>,
}

/// A reference sequence with its identifier.
#[derive(Clone, Debug, PartialEq, Eq)]
pub struct Fasta {
    pub header: String,
    pub sequence: String,
}

/// A sequencing read with its identifier and its quality string.
#[derive(Clone, Debug, PartialEq, Eq)]
pub struct Fastq {
    pub header: String,
    pub sequence: String,
    pub quality: String,
}

impl View for Fasta {
    type V = Record;

    open spec fn view(&self) -> Record {
        Record { header: self.header@, sequence: self.sequence@ }
    }
}

impl View for Fastq {
    type V = ReadRecord;

    open spec fn view(&self) -> ReadRecord {
        ReadRecord { header: self.header@, sequence: self.sequence@, quality: self.quality@ }
    }
}

/// What a vector of reference records holds, as plain values.
pub open spec fn records_of(records: Seq<Fasta>) -> Seq<Record> {
    Seq::new(records.len(), |i: int| records[i]@)
}

/// What a vector of reads holds, as plain values.
pub open spec fn reads_of(reads: Seq<Fastq>) -> Seq<ReadRecord> {
    Seq::new(reads.len(), |i: int| reads[i]@)
}

/// What `char::is_whitespace` of the standard library says of a symbol:
/// whether Unicode lists it as White_Space. `str::trim` goes by it.
pub uninterp spec fn is_white_space(symbol: char) -> bool;

/// A text without the white space that it begins with.
pub open spec fn without_leading_space(text: Seq<char>) -> Seq<char>
    decreases text.len(),
{
    if text.len() > 0 && is_white_space(text.first()) {
        without_leading_space(text.drop_first())
    } else {
        text
    }
}

/// A text without the white space that it ends with.
pub open spec fn without_trailing_space(text: Seq<char>) -> Seq<char>
    decreases text.len(),
{
    if text.len() > 0 && is_white_space(text.last()) {
        without_trailing_space(text.drop_last())
    } else {
        text
    }
}

/// A text without the white space at either end.
pub open spec fn trimmed(text: Seq<char>) -> Seq<char> {
    without_trailing_space(without_leading_space(text))
}

/// `str::trim` of the standard library, which is not verified here. It is
/// taken to return the text without its leading and trailing white space,
/// white space being what Unicode calls White_Space: so what is returned
/// neither begins nor ends with such a symbol.
#[verifier::external_body]
fn trim(text: &str) -> (inner: &str)
    ensures
        inner@ == trimmed(text@),
        inner@.len() > 0 ==> !is_white_space(inner@.first()) && !is_white_space(inner@.last()),
{
    text.trim()
}

/// Whether a text begins with `mark`.
fn starts_with(text: &str, mark: char) -> (yes: bool)
    ensures
        yes == (text@.len() > 0 && text@[0] == mark),
{
    if text.is_empty() {
        false
    } else {
        text.get_char(0) == mark
    }
}

/// A text without its first symbol.
fn after_first(text: &str) -> (rest: &str)
    requires
        text@.len() > 0,
    ensures
        rest@ == text@.drop_first(),
{
    let len: usize = text.unicode_len();
    text.substring_char(1, len)
}

/// How far a FASTA text has been read: the records that are complete, and
/// the header and the sequence of the record that is being read. The header
/// is empty as long as no header line has been read.
pub struct FastaProgress {
    pub done: Seq<Record>,
    pub header: Seq<char>,
    pub sequence: Seq<char>,
}

/// What one more line does to a FASTA text read so far. The line counts
/// without the white space at its ends. A line that begins with `>` closes
/// the record that is being read, if it has a header, and opens the next one
/// with the rest of the line as its header; any other line is added to the
/// sequence that is being read.
pub open spec fn fasta_after_line(so_far: FastaProgress, line: Seq<char>) -> FastaProgress {
    let text = trimmed(line);
    if text.len() > 0 && text[0] == '>' {
        if so_far.header.len() > 0 {
            FastaProgress {
                done: so_far.done.push(
                    Record { header: so_far.header, sequence: so_far.sequence },
                ),
                header: text.drop_first(),
                sequence: Seq::empty(),
            }
        } else {
            FastaProgress { done: so_far.done, header: text.drop_first(), sequence: so_far.sequence }
        }
    } else {
        FastaProgress {
            done: so_far.done,
            header: so_far.header,
            sequence: so_far.sequence + text,
        }
    }
}

/// A FASTA text after all of `lines`.
pub open spec fn fasta_after(lines: Seq<Seq<char>>) -> FastaProgress
    decreases lines.len(),
{
    if lines.len() == 0 {
        FastaProgress { done: Seq::empty(), header: Seq::empty(), sequence: Seq::empty() }
    } else {
        fasta_after_line(fasta_after(lines.drop_last()), lines.last())
    }
}

/// The records of a FASTA text: those that were complete when the text
/// ended, and the one that was being read, if it has a header.
pub open spec fn fasta_records(lines: Seq<Seq<char>>) -> Seq<Record> {
    let end = fasta_after(lines);
    if end.header.len() > 0 {
        end.done.push(Record { header: end.header, sequence: end.sequence })
    } else {
        end.done
    }
}

/// Reads the records of a FASTA text from its lines. A record is a header
/// line, which begins with `>`, and the lines up to the next header line,
/// joined into one sequence. A record whose header is empty is not kept, and
/// what it had of a sequence goes to the record after it.
pub fn parse_fasta(lines: &Vec<String>) -> (records: Vec<Fasta>)
    ensures
        records_of(records@) == fasta_records(texts(lines@)),
{
    let mut records: Vec<Fasta> = Vec::new();
    let mut header: String = String::new();
    let mut sequence: String = String::new();
    let mut read: usize = 0;
    proof {
        assert(records_of(records@) =~= Seq::<Record>::empty());
    }
    while read < lines.len()
        invariant
            read <= lines.len(),
            fasta_after(texts(lines@).take(read as int)) == (FastaProgress {
                done: records_of(records@),
                header: header@,
                sequence: sequence@,
            }),
        decreases lines.len() - read,
    {
        let ghost before = records_of(records@);
        let ghost so_far = fasta_after(texts(lines@).take(read as int));
        proof {
            let now = texts(lines@).take(read + 1);
            assert(now.drop_last() =~= texts(lines@).take(read as int));
        }
        let text: &str = trim(lines[read].as_str());
        if starts_with(text, '>') {
            let rest: &str = after_first(text);
            if !header.as_str().is_empty() {
                records.push(Fasta { header, sequence });
                sequence = String::new();
                proof {
                    assert(records_of(records@) =~= before.push(
                        Record { header: so_far.header, sequence: so_far.sequence },
                    ));
                }
            }
            header = rest.to_string();
        } else {
            sequence.append(text);
        }
        read = read + 1;
    }
    proof {
        assert(texts(lines@).take(read as int) =~= texts(lines@));
    }
    if !header.as_str().is_empty() {
        records.push(Fasta { header, sequence });
    }
    records
}

/// How far a FASTQ text has been read: the reads that are complete, the
/// parts of the read that is being read, and whether the next plain line
/// belongs to its sequence rather than to its quality.
pub struct FastqProgress {
    pub done: Seq<ReadRecord>,
    pub header: Seq<char>,
    pub sequence: Seq<char>,
    pub quality: Seq<char>,
    pub in_sequence: bool,
}

/// What one more line does to a FASTQ text read so far. The line counts
/// without the white space at its ends. A line that begins with `@` closes
/// the read that is being read, if it has a header, and opens the next one;
/// a line that begins with `+` says that a quality line follows; any other
/// line is added to the sequence, or, after a `+` line, to the quality, after
/// which sequence lines are expected again.
pub open spec fn fastq_after_line(so_far: FastqProgress, line: Seq<char>) -> FastqProgress {
    let text = trimmed(line);
    if text.len() > 0 && text[0] == '@' {
        if so_far.header.len() > 0 {
            FastqProgress {
                done: so_far.done.push(
                    ReadRecord {
                        header: so_far.header,
                        sequence: so_far.sequence,
                        quality: so_far.quality,
                    },
                ),
                header: text.drop_first(),
                sequence: Seq::empty(),
                quality: Seq::empty(),
                in_sequence: so_far.in_sequence,
            }
        } else {
            FastqProgress {
                done: so_far.done,
                header: text.drop_first(),
                sequence: so_far.sequence,
                quality: so_far.quality,
                in_sequence: so_far.in_sequence,
            }
        }
    } else if text.len() > 0 && text[0] == '+' {
        FastqProgress {
            done: so_far.done,
            header: so_far.header,
            sequence: so_far.sequence,
            quality: so_far.quality,
            in_sequence: false,
        }
    } else if so_far.in_sequence {
        FastqProgress {
            done: so_far.done,
            header: so_far.header,
            sequence: so_far.sequence + text,
            quality: so_far.quality,
            in_sequence: true,
        }
    } else {
        FastqProgress {
            done: so_far.done,
            header: so_far.header,
            sequence: so_far.sequence,
            quality: so_far.quality + text,
            in_sequence: true,
        }
    }
}

/// A FASTQ text after all of `lines`.
pub open spec fn fastq_after(lines: Seq<Seq<char>>) -> FastqProgress
    decreases lines.len(),
{
    if lines.len() == 0 {
        FastqProgress {
            done: Seq::empty(),
            header: Seq::empty(),
            sequence: Seq::empty(),
            quality: Seq::empty(),
            in_sequence: true,
        }
    } else {
        fastq_after_line(fastq_after(lines.drop_last()), lines.last())
    }
}

/// The reads of a FASTQ text: those that were complete when the text ended,
/// and the one that was being read, if it has a header.
pub open spec fn fastq_records(lines: Seq<Seq<char>>) -> Seq<ReadRecord> {
    let end = fastq_after(lines);
    if end.header.len() > 0 {
        end.done.push(
            ReadRecord { header: end.header, sequence: end.sequence, quality: end.quality },
        )
    } else {
        end.done
    }
}

/// Reads the reads of a FASTQ text from its lines. A read is a header line,
/// which begins with `@`, its sequence lines, a line that begins with `+`,
/// and a quality line. A read whose header is empty is not kept.
pub fn parse_fastq(lines: &Vec<String>) -> (reads: Vec<Fastq>)
    ensures
        reads_of(reads@) == fastq_records(texts(lines@)),
{
    let mut reads: Vec<Fastq> = Vec::new();
    let mut header: String = String::new();
    let mut sequence: String = String::new();
    let mut quality: String = String::new();
    let mut in_sequence: bool = true;
    let mut read: usize = 0;
    proof {
        assert(reads_of(reads@) =~= Seq::<ReadRecord>::empty());
    }
    while read < lines.len()
        invariant
            read <= lines.len(),
            fastq_after(texts(lines@).take(read as int)) == (FastqProgress {
                done: reads_of(reads@),
                header: header@,
                sequence: sequence@,
                quality: quality@,
                in_sequence,
            }),
        decreases lines.len() - read,
    {
        let ghost before = reads_of(reads@);
        let ghost so_far = fastq_after(texts(lines@).take(read as int));
        proof {
            let now = texts(lines@).take(read + 1);
            assert(now.drop_last() =~= texts(lines@).take(read as int));
        }
        let text: &str = trim(lines[read].as_str());
        if starts_with(text, '@') {
            let rest: &str = after_first(text);
            if !header.as_str().is_empty() {
                reads.push(Fastq { header, sequence, quality });
                sequence = String::new();
                quality = String::new();
                proof {
                    assert(reads_of(reads@) =~= before.push(
                        ReadRecord {
                            header: so_far.header,
                            sequence: so_far.sequence,
                            quality: so_far.quality,
                        },
                    ));
                }
            }
            header = rest.to_string();
        } else if starts_with(text, '+') {
            in_sequence = false;
        } else if in_sequence {
            sequence.append(text);
        } else {
            quality.append(text);
            in_sequence = true;
        }
        read = read + 1;
    }
    proof {
        assert(texts(lines@).take(read as int) =~= texts(lines@));
    }
    if !header.as_str().is_empty() {
        reads.push(Fastq { header, sequence, quality });
    }
    reads
}

} // verus!
