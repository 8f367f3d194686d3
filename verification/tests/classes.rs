use pseudoalign::de_bruijn_graph::DeBruijnGraph;
use pseudoalign::equivalence_classes::{find_class, group, EquivalenceClass};
use pseudoalign::file_parser_utils::{Fasta, Fastq};

fn record(header: &str, sequence: &str) -> Fasta {
    Fasta { header: header.to_string(), sequence: sequence.to_string() }
}

fn read(header: &str, sequence: &str) -> Fastq {
    Fastq { header: header.to_string(), sequence: sequence.to_string(), quality: String::new() }
}

fn tallies(classes: &[EquivalenceClass]) -> Vec<(Vec<usize>, usize)> {
    classes.iter().map(|class| (class.transcripts.clone(), class.count)).collect()
}

#[test]
fn group_counts_each_distinct_list() {
    let keys = vec![vec![0], vec![0, 1], vec![0], vec![], vec![0, 1], vec![0]];
    let classes = group(&keys);
    assert_eq!(tallies(&classes), vec![(vec![0], 3), (vec![0, 1], 2), (vec![], 1)]);
}

#[test]
fn group_of_nothing_is_nothing() {
    assert_eq!(tallies(&group(&Vec::new())), Vec::new());
}

#[test]
fn counts_sum_to_the_number_of_lists() {
    let keys = vec![vec![2], vec![1], vec![2], vec![1, 2], vec![], vec![], vec![2]];
    let classes = group(&keys);
    let total: usize = classes.iter().map(|class| class.count).sum();
    assert_eq!(total, keys.len());
    for class in &classes {
        let occurrences = keys.iter().filter(|key| **key == class.transcripts).count();
        assert_eq!(class.count, occurrences);
    }
}

#[test]
fn find_class_gives_the_place_of_a_list() {
    let classes = group(&vec![vec![0], vec![0, 1], vec![]]);
    assert_eq!(find_class(&classes, &vec![0, 1]), Some(1));
    assert_eq!(find_class(&classes, &vec![]), Some(2));
    assert_eq!(find_class(&classes, &vec![1]), None);
}

#[test]
fn reads_fall_into_classes_by_compatibility() {
    let mut graph = DeBruijnGraph::new(3);
    graph.build_index_graph(&vec![record("T1", "AAAAACC"), record("T2", "AAAAAGG")]);
    let reads = vec![
        read("r1", "AAAAACC"),
        read("r2", "AAAAA"),
        read("r3", "AAAGG"),
        read("r4", "AAAA"),
        read("r5", "TTTT"),
        read("r6", "AACC"),
        read("r7", "A"),
    ];
    let result = graph.equivalence_classes(&reads);
    assert_eq!(
        result.compatibility,
        vec![vec![0], vec![0, 1], vec![1], vec![0, 1], vec![], vec![0], vec![]]
    );
    assert_eq!(
        tallies(&result.classes),
        vec![(vec![0], 2), (vec![0, 1], 2), (vec![1], 1), (vec![], 2)]
    );
}

#[test]
fn transcripts_in_classes_have_windows() {
    let mut graph = DeBruijnGraph::new(3);
    graph.build_index_graph(&vec![record("short", "AC"), record("T1", "ACGT"), record("none", "")]);
    let reads = vec![read("r1", "ACG"), read("r2", "AC"), read("r3", "CGT")];
    let result = graph.equivalence_classes(&reads);
    assert_eq!(tallies(&result.classes), vec![(vec![1], 2), (vec![], 1)]);
    for class in &result.classes {
        for t in &class.transcripts {
            assert!(graph.effective_length_of(*t) >= 1);
        }
    }
}

#[test]
fn no_reads_give_no_classes() {
    let mut graph = DeBruijnGraph::new(3);
    graph.build_index_graph(&vec![record("T1", "ACGT")]);
    let result = graph.equivalence_classes(&Vec::new());
    assert!(result.classes.is_empty());
    assert!(result.compatibility.is_empty());
}
