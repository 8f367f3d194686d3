use pseudoalign::file_parser_utils::Fasta;
use pseudoalign::k_mer_utils::{build_k_mer_index, create_k_mers, effective_length, split_k_mer};

fn strings(items: &[&str]) -> Vec<String> {
    items.iter().map(|s| s.to_string()).collect()
}

fn record(header: &str, sequence: &str) -> Fasta {
    Fasta { header: header.to_string(), sequence: sequence.to_string() }
}

#[test]
fn k_mers_are_the_windows_in_order() {
    assert_eq!(create_k_mers("ACGTAC", 3), strings(&["ACG", "CGT", "GTA", "TAC"]));
}

#[test]
fn k_mer_count_is_length_minus_k_plus_one() {
    let sequence = "ACGTACGTAC";
    for k in 1..=sequence.len() {
        let k_mers = create_k_mers(sequence, k);
        assert_eq!(k_mers.len(), sequence.len() - k + 1);
        for k_mer in &k_mers {
            assert_eq!(k_mer.chars().count(), k);
        }
    }
}

#[test]
fn k_mers_spell_the_sequence() {
    let sequence = "GATTACAGATTACA";
    let k_mers = create_k_mers(sequence, 4);
    let mut spelled = k_mers[0].clone();
    for i in 1..k_mers.len() {
        assert_eq!(&k_mers[i - 1][1..], &k_mers[i][..3]);
        spelled.push(k_mers[i].chars().last().unwrap());
    }
    assert_eq!(spelled, sequence);
}

#[test]
fn sequence_of_window_length_has_one_k_mer() {
    assert_eq!(create_k_mers("ACG", 3), strings(&["ACG"]));
}

#[test]
fn sequence_shorter_than_window_has_no_k_mer() {
    assert_eq!(create_k_mers("AC", 3), Vec::<String>::new());
    assert_eq!(create_k_mers("", 2), Vec::<String>::new());
}

#[test]
fn window_of_one_gives_the_symbols() {
    assert_eq!(create_k_mers("ACG", 1), strings(&["A", "C", "G"]));
}

#[test]
fn k_mers_count_symbols_not_bytes() {
    assert_eq!(create_k_mers("A\u{c9}CG", 2), strings(&["A\u{c9}", "\u{c9}C", "CG"]));
}

#[test]
fn effective_length_is_the_number_of_windows() {
    assert_eq!(effective_length(7, 3), 5);
    assert_eq!(effective_length(3, 3), 1);
    assert_eq!(effective_length(2, 3), 0);
    assert_eq!(effective_length(0, 2), 0);
}

#[test]
fn split_gives_prefix_and_suffix() {
    assert_eq!(split_k_mer("ACG"), ("AC".to_string(), "CG".to_string()));
    assert_eq!(split_k_mer("AC"), ("A".to_string(), "C".to_string()));
    assert_eq!(split_k_mer("A"), (String::new(), String::new()));
}

#[test]
fn both_halves_of_an_edge_have_k_minus_one_symbols() {
    for k in 2..=6 {
        for k_mer in create_k_mers("ACGTTGCAACGT", k) {
            let (prefix, suffix) = split_k_mer(&k_mer);
            assert_eq!(prefix.len(), k - 1);
            assert_eq!(suffix.len(), k - 1);
        }
    }
}

#[test]
fn k_mer_index_holds_each_record_by_its_header() {
    let records = vec![record("T1", "ACGT"), record("T2", "GG"), record("T3", "TTT")];
    let index = build_k_mer_index(&records, 3);
    assert_eq!(index.index.len(), 3);
    assert_eq!(index.index.get("T1"), Some(&strings(&["ACG", "CGT"])));
    assert_eq!(index.index.get("T2"), Some(&Vec::<String>::new()));
    assert_eq!(index.index.get("T3"), Some(&strings(&["TTT"])));
    assert_eq!(index.index.get("T4"), None);
}

#[test]
fn k_mer_index_keeps_the_later_of_two_records_with_one_header() {
    let records = vec![record("T1", "ACGT"), record("T1", "TTTT")];
    let index = build_k_mer_index(&records, 3);
    assert_eq!(index.index.len(), 1);
    assert_eq!(index.index.get("T1"), Some(&strings(&["TTT", "TTT"])));
}
