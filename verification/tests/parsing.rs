use pseudoalign::file_parser_utils::{parse_fasta, parse_fastq, Fasta, Fastq};

fn lines(items: &[&str]) -> Vec<String> {
    items.iter().map(|s| s.to_string()).collect()
}

fn record(header: &str, sequence: &str) -> Fasta {
    Fasta { header: header.to_string(), sequence: sequence.to_string() }
}

fn read(header: &str, sequence: &str, quality: &str) -> Fastq {
    Fastq { header: header.to_string(), sequence: sequence.to_string(), quality: quality.to_string() }
}

#[test]
fn fasta_records_join_their_sequence_lines() {
    let text = lines(&[">T1", "ACGT", "TTAA", ">T2 second", "GG"]);
    assert_eq!(parse_fasta(&text), vec![record("T1", "ACGTTTAA"), record("T2 second", "GG")]);
}

#[test]
fn fasta_lines_are_trimmed() {
    let text = lines(&["  >T1\r", "\tACGT  ", "", "   ", " TT\r\n", ">T2", "G G"]);
    assert_eq!(parse_fasta(&text), vec![record("T1", "ACGTTT"), record("T2", "G G")]);
}

#[test]
fn fasta_header_keeps_what_follows_the_mark() {
    let text = lines(&["> T1 ", "AC", ">>T2", "GT"]);
    assert_eq!(parse_fasta(&text), vec![record(" T1", "AC"), record(">T2", "GT")]);
}

#[test]
fn fasta_without_header_has_no_record() {
    assert_eq!(parse_fasta(&lines(&["ACGT", "TTAA"])), Vec::<Fasta>::new());
    assert_eq!(parse_fasta(&Vec::new()), Vec::<Fasta>::new());
}

#[test]
fn fasta_record_without_sequence_is_kept() {
    assert_eq!(parse_fasta(&lines(&[">T1", ">T2"])), vec![record("T1", ""), record("T2", "")]);
}

#[test]
fn fasta_text_before_the_first_header_goes_to_the_first_record() {
    let text = lines(&["AC", ">T1", "GT"]);
    assert_eq!(parse_fasta(&text), vec![record("T1", "ACGT")]);
}

#[test]
fn fasta_record_with_empty_header_is_dropped() {
    let text = lines(&[">T1", "AC", ">", "GG", ">T2", "TT"]);
    assert_eq!(parse_fasta(&text), vec![record("T1", "AC"), record("T2", "GGTT")]);
}

#[test]
fn fastq_reads_have_header_sequence_and_quality() {
    let text = lines(&["@r1", "ACGT", "+", "IIII", "@r2 more", "GG", "+r2", "#!"]);
    assert_eq!(parse_fastq(&text), vec![read("r1", "ACGT", "IIII"), read("r2 more", "GG", "#!")]);
}

#[test]
fn fastq_lines_are_trimmed() {
    let text = lines(&[" @r1\r", "ACGT \r", " +\r", "IIII\r", ""]);
    assert_eq!(parse_fastq(&text), vec![read("r1", "ACGT", "IIII")]);
}

#[test]
fn fastq_sequence_may_span_lines() {
    let text = lines(&["@r1", "AC", "GT", "+", "IIII", "TT"]);
    assert_eq!(parse_fastq(&text), vec![read("r1", "ACGTTT", "IIII")]);
}

#[test]
fn fastq_without_header_has_no_read() {
    assert_eq!(parse_fastq(&lines(&["ACGT", "+", "IIII"])), Vec::<Fastq>::new());
    assert_eq!(parse_fastq(&Vec::new()), Vec::<Fastq>::new());
}

#[test]
fn fastq_quality_line_that_begins_with_the_header_mark_opens_a_read() {
    let text = lines(&["@r1", "ACGT", "+", "@III", "GG"]);
    assert_eq!(parse_fastq(&text), vec![read("r1", "ACGT", ""), read("III", "", "GG")]);
}
