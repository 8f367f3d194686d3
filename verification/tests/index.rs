use pseudoalign::de_bruijn_graph::DeBruijnGraph;
use pseudoalign::file_parser_utils::Fasta;
use pseudoalign::positions::{intersect, same_list};

fn strings(items: &[&str]) -> Vec<String> {
    items.iter().map(|s| s.to_string()).collect()
}

fn record(header: &str, sequence: &str) -> Fasta {
    Fasta { header: header.to_string(), sequence: sequence.to_string() }
}

fn edge(prefix: &str, suffix: &str) -> (String, String) {
    (prefix.to_string(), suffix.to_string())
}

fn two_transcripts() -> DeBruijnGraph {
    let mut graph = DeBruijnGraph::new(3);
    graph.build_index_graph(&vec![record("T1", "AAAAACC"), record("T2", "AAAAAGG")]);
    graph
}

#[test]
fn new_index_is_empty() {
    let graph = DeBruijnGraph::new(2);
    assert_eq!(graph.k(), 2);
    assert_eq!(graph.transcript_count(), 0);
    assert_eq!(graph.edge_transcripts("A", "C"), None);
    assert!(graph.adj_list().successors("A").is_none());
    let (names, walked) = graph.pseudoalign("ACGT");
    assert_eq!(names, Vec::<String>::new());
    assert_eq!(walked, vec![edge("A", "C")]);
}

#[test]
fn index_records_names_and_effective_lengths() {
    let mut graph = DeBruijnGraph::new(3);
    graph.build_index_graph(&vec![
        record("long", "AAAAACC"),
        record("exact", "ACG"),
        record("short", "AC"),
    ]);
    assert_eq!(graph.k(), 3);
    assert_eq!(graph.transcript_count(), 3);
    assert_eq!(graph.transcript_name(0), "long");
    assert_eq!(graph.transcript_name(1), "exact");
    assert_eq!(graph.transcript_name(2), "short");
    assert_eq!(graph.effective_length_of(0), 5);
    assert_eq!(graph.effective_length_of(1), 1);
    assert_eq!(graph.effective_length_of(2), 0);
}

#[test]
fn edge_maps_to_the_transcripts_that_carry_it() {
    let graph = two_transcripts();
    assert_eq!(graph.edge_transcripts("AA", "AA"), Some(strings(&["T1", "T2"])));
    assert_eq!(graph.edge_transcripts("AA", "AC"), Some(strings(&["T1"])));
    assert_eq!(graph.edge_transcripts("AC", "CC"), Some(strings(&["T1"])));
    assert_eq!(graph.edge_transcripts("AA", "AG"), Some(strings(&["T2"])));
    assert_eq!(graph.edge_transcripts("AG", "GG"), Some(strings(&["T2"])));
}

#[test]
fn edge_that_no_transcript_carries_is_not_in_the_index() {
    let graph = two_transcripts();
    assert_eq!(graph.edge_transcripts("CC", "CC"), None);
    assert_eq!(graph.edge_transcripts("AA", "CC"), None);
    assert_eq!(graph.edge_transcripts("A", "A"), None);
    assert_eq!(graph.edge_transcripts("AAA", "AAA"), None);
    assert_eq!(graph.edge_transcripts("", ""), None);
}

#[test]
fn transcript_enters_the_set_of_an_edge_once() {
    let mut graph = DeBruijnGraph::new(3);
    graph.build_index_graph(&vec![record("T1", "AAAAAAAA")]);
    assert_eq!(graph.edge_transcripts("AA", "AA"), Some(strings(&["T1"])));
}

#[test]
fn adjacency_keeps_one_edge_for_each_window() {
    let mut graph = DeBruijnGraph::new(3);
    graph.build_index_graph(&vec![record("T1", "AAAAACC")]);
    let adjacency = graph.adj_list();
    assert_eq!(adjacency.successors("AA"), Some(&strings(&["AA", "AA", "AA", "AC"])));
    assert_eq!(adjacency.successors("AC"), Some(&strings(&["CC"])));
    assert_eq!(adjacency.successors("CC"), Some(&Vec::<String>::new()));
    assert_eq!(adjacency.successors("GG"), None);
}

#[test]
fn adjacency_follows_the_order_of_the_transcripts() {
    let graph = two_transcripts();
    let adjacency = graph.adj_list();
    assert_eq!(
        adjacency.successors("AA"),
        Some(&strings(&["AA", "AA", "AA", "AC", "AA", "AA", "AA", "AG"]))
    );
    assert_eq!(adjacency.successors("AG"), Some(&strings(&["GG"])));
    assert_eq!(adjacency.successors("GG"), Some(&Vec::<String>::new()));
}

#[test]
fn index_does_not_depend_on_the_order_of_the_transcripts() {
    let records = vec![record("T1", "ACGTAC"), record("T2", "CGTACG"), record("T3", "TTACGT")];
    let reversed = vec![record("T3", "TTACGT"), record("T2", "CGTACG"), record("T1", "ACGTAC")];
    let mut forward = DeBruijnGraph::new(3);
    forward.build_index_graph(&records);
    let mut backward = DeBruijnGraph::new(3);
    backward.build_index_graph(&reversed);
    let edges = [("AC", "CG"), ("CG", "GT"), ("GT", "TA"), ("TA", "AC"), ("TT", "TA"), ("AA", "AA")];
    for (prefix, suffix) in edges {
        let mut one = forward.edge_transcripts(prefix, suffix);
        let mut other = backward.edge_transcripts(prefix, suffix);
        if let Some(names) = one.as_mut() {
            names.sort();
        }
        if let Some(names) = other.as_mut() {
            names.sort();
        }
        assert_eq!(one, other);
    }
    assert_eq!(forward.edge_transcripts("AC", "CG"), Some(strings(&["T1", "T2", "T3"])));
    assert_eq!(backward.edge_transcripts("AC", "CG"), Some(strings(&["T3", "T2", "T1"])));
}

#[test]
fn building_again_from_the_same_transcripts_changes_no_set() {
    let records = vec![record("T1", "ACGTAC"), record("T2", "CGTACG")];
    let mut once = DeBruijnGraph::new(3);
    once.build_index_graph(&records);
    let mut twice = DeBruijnGraph::new(3);
    twice.build_index_graph(&records);
    twice.build_index_graph(&records);
    for (prefix, suffix) in [("AC", "CG"), ("CG", "GT"), ("GT", "TA"), ("TA", "AC"), ("GG", "GG")] {
        let mut one = once.edge_transcripts(prefix, suffix);
        let mut other = twice.edge_transcripts(prefix, suffix);
        if let Some(names) = one.as_mut() {
            names.sort();
            names.dedup();
        }
        if let Some(names) = other.as_mut() {
            names.sort();
            names.dedup();
        }
        assert_eq!(one, other);
    }
}

#[test]
fn build_adds_to_what_the_index_holds() {
    let mut graph = DeBruijnGraph::new(3);
    graph.build_index_graph(&vec![record("T1", "AAAAACC")]);
    graph.build_index_graph(&vec![record("T2", "AAAAAGG")]);
    assert_eq!(graph.transcript_count(), 2);
    assert_eq!(graph.edge_transcripts("AA", "AA"), Some(strings(&["T1", "T2"])));
    assert_eq!(graph.pseudoalign("AAAAAGG").0, strings(&["T2"]));
}

#[test]
fn read_is_compatible_with_the_transcripts_that_carry_all_its_edges() {
    let graph = two_transcripts();
    let (positions, walked) = graph.resolve("AAAAAC");
    assert_eq!(positions, vec![0]);
    assert_eq!(walked, vec![edge("AA", "AA"), edge("AA", "AA"), edge("AA", "AA"), edge("AA", "AC")]);
    let (positions, _) = graph.resolve("AAAA");
    assert_eq!(positions, vec![0, 1]);
    let (positions, _) = graph.resolve("AAGG");
    assert_eq!(positions, vec![1]);
}

#[test]
fn read_shorter_than_a_window_is_compatible_with_nothing() {
    let graph = two_transcripts();
    let (names, walked) = graph.pseudoalign("AA");
    assert_eq!(names, Vec::<String>::new());
    assert_eq!(walked, Vec::<(String, String)>::new());
    let (names, walked) = graph.pseudoalign("");
    assert_eq!(names, Vec::<String>::new());
    assert_eq!(walked, Vec::<(String, String)>::new());
}

#[test]
fn unknown_edge_ends_the_walk_with_nothing() {
    let graph = two_transcripts();
    let (names, walked) = graph.pseudoalign("AAATTTAAA");
    assert_eq!(names, Vec::<String>::new());
    assert_eq!(walked, vec![edge("AA", "AA"), edge("AA", "AT")]);
}

#[test]
fn unknown_first_edge_ends_the_walk_at_once() {
    let graph = two_transcripts();
    let (names, walked) = graph.pseudoalign("TTTAAAAA");
    assert_eq!(names, Vec::<String>::new());
    assert_eq!(walked, vec![edge("TT", "TT")]);
}

#[test]
fn unknown_edge_is_not_passed_over() {
    let graph = two_transcripts();
    let (names, walked) = graph.pseudoalign("AAAAATCC");
    assert_eq!(names, Vec::<String>::new());
    assert_eq!(walked, vec![edge("AA", "AA"), edge("AA", "AA"), edge("AA", "AA"), edge("AA", "AT")]);
}

#[test]
fn walk_ends_when_no_candidate_is_left() {
    let mut graph = DeBruijnGraph::new(3);
    graph.build_index_graph(&vec![record("T1", "ACGT"), record("T2", "GTTAC")]);
    let (names, walked) = graph.pseudoalign("ACGTTAC");
    assert_eq!(names, Vec::<String>::new());
    assert_eq!(walked, vec![edge("AC", "CG"), edge("CG", "GT"), edge("GT", "TT")]);
}

#[test]
fn candidates_do_not_grow_along_a_read() {
    let mut graph = DeBruijnGraph::new(3);
    graph.build_index_graph(&vec![
        record("T1", "ACGTACGG"),
        record("T2", "ACGTACTT"),
        record("T3", "ACGTTT"),
        record("T4", "ACGA"),
    ]);
    let read = "ACGTACGG";
    let mut before = usize::MAX;
    for end in 3..=read.len() {
        let (positions, _) = graph.resolve(&read[..end]);
        assert!(positions.len() <= before);
        before = positions.len();
    }
    assert_eq!(graph.resolve("ACG").0, vec![0, 1, 2, 3]);
    assert_eq!(graph.resolve("ACGT").0, vec![0, 1, 2]);
    assert_eq!(graph.resolve("ACGTA").0, vec![0, 1]);
    assert_eq!(graph.resolve("ACGTAC").0, vec![0, 1]);
    assert_eq!(graph.resolve("ACGTACG").0, vec![0, 1]);
    assert_eq!(graph.resolve("ACGTACGG").0, vec![0]);
    assert_eq!(graph.resolve("ACGTACGGA").0, Vec::<usize>::new());
    assert_eq!(graph.resolve("ACGTACGGAC").0, Vec::<usize>::new());
}

#[test]
fn names_follow_positions() {
    let graph = two_transcripts();
    assert_eq!(graph.names_of(&vec![1, 0, 1]), strings(&["T2", "T1", "T2"]));
    assert_eq!(graph.names_of(&vec![]), Vec::<String>::new());
}

#[test]
fn compatible_transcripts_come_in_the_order_of_the_index() {
    let mut graph = DeBruijnGraph::new(2);
    graph.build_index_graph(&vec![record("b", "AC"), record("a", "ACG"), record("c", "TAC")]);
    assert_eq!(graph.pseudoalign("AC").0, strings(&["b", "a", "c"]));
    assert_eq!(graph.pseudoalign("ACG").0, strings(&["a"]));
}

#[test]
fn two_transcripts_with_one_name_stay_two() {
    let mut graph = DeBruijnGraph::new(2);
    graph.build_index_graph(&vec![record("T", "AC"), record("T", "ACG")]);
    assert_eq!(graph.resolve("AC").0, vec![0, 1]);
    assert_eq!(graph.pseudoalign("AC").0, strings(&["T", "T"]));
}

#[test]
fn intersect_keeps_what_both_hold() {
    assert_eq!(intersect(&vec![1, 3, 5, 7], &vec![2, 3, 4, 7, 9]), vec![3, 7]);
    assert_eq!(intersect(&vec![1, 2, 3], &vec![1, 2, 3]), vec![1, 2, 3]);
    assert_eq!(intersect(&vec![1, 2, 3], &vec![4, 5]), Vec::<usize>::new());
    assert_eq!(intersect(&vec![], &vec![4, 5]), Vec::<usize>::new());
    assert_eq!(intersect(&vec![4, 5], &vec![]), Vec::<usize>::new());
}

#[test]
fn intersection_is_no_longer_than_either_list() {
    let a = vec![0, 2, 4, 6, 8, 10];
    let b = vec![3, 4, 5, 6];
    let both = intersect(&a, &b);
    assert!(both.len() <= a.len());
    assert!(both.len() <= b.len());
    assert_eq!(intersect(&both, &vec![]), Vec::<usize>::new());
    assert_eq!(intersect(&Vec::new(), &a), Vec::<usize>::new());
}

#[test]
fn same_list_compares_element_by_element() {
    assert!(same_list(&vec![1, 2, 3], &vec![1, 2, 3]));
    assert!(same_list(&vec![], &vec![]));
    assert!(!same_list(&vec![1, 2, 3], &vec![1, 2]));
    assert!(!same_list(&vec![1, 2, 3], &vec![1, 2, 4]));
}
