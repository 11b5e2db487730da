use tuna::dna_hash_table::{DNAHashTable, Kmer};
use tuna::dna_read_graph::DNAReadGraph;

fn kmer(segment_index: usize, position: usize, creation_time: usize) -> Kmer {
    Kmer { segment_index, position, creation_time }
}

fn no_lists(l: usize) -> Vec<Vec<usize>> {
    vec![Vec::<usize>::new(); l]
}

#[test]
fn test_lmers_within_distance_1() {
    let lmer_1: &str = "ATAGGATA";
    let lmer_2: &str = "ATAGGATA";
    assert_eq!(0, DNAReadGraph::lmers_distance(lmer_1, lmer_2, 1));
}

#[test]
fn test_lmers_within_distance_2() {
    let lmer_1: &str = "ATGGCATA";
    let lmer_2: &str = "ATAGGATA";
    assert_eq!(2, DNAReadGraph::lmers_distance(lmer_1, lmer_2, 1));
}

#[test]
fn test_lmers_within_distance_3() {
    let lmer_1: &str = "ATGGCATA";
    let lmer_2: &str = "ATAGGAAA";
    assert_eq!(3, DNAReadGraph::lmers_distance(lmer_1, lmer_2, 3));
}

#[test]
fn test_get_lmer_differences_1() {
    let lmer_1: &str = "ATAGGATA";
    let lmer_2: &str = "ATAGGATA";
    let transition_positions: Vec<usize> = Vec::<usize>::new();
    let transition_letters: Vec<char> = Vec::<char>::new();
    assert_eq!((transition_positions, transition_letters), DNAReadGraph::get_lmer_differences(lmer_1, lmer_2, 3));
}

#[test]
fn test_get_lmer_differences_2() {
    let lmer_1: &str = "ATAGGATA";
    let lmer_2: &str = "ATAAGAAA";
    let transition_positions: Vec<usize> = vec![3, 6];
    let transition_letters: Vec<char> = vec!['A', 'A'];
    assert_eq!((transition_positions, transition_letters), DNAReadGraph::get_lmer_differences(lmer_1, lmer_2, 3));
}

#[test]
fn test_get_lmer_differences_3() {
    let lmer_1: &str = "ATAGGATA";
    let lmer_2: &str = "ATCATAAA";
    let transition_positions: Vec<usize> = vec![2, 3, 4, 6];
    let transition_letters: Vec<char> = vec!['C', 'A', 'T', 'A'];
    assert_eq!((transition_positions, transition_letters), DNAReadGraph::get_lmer_differences(lmer_1, lmer_2, 10));
}

#[test]
fn test_get_lmer_index_1() {
    let mut segments: Vec<String> = Vec::<String>::new();
    let k: usize = 1;
    segments.push("ATGTG".to_string());
    let kmer_hash_table = DNAHashTable::new(&segments, k);
    assert_eq!(0, DNAReadGraph::get_lmer_index(&kmer_hash_table, 0, 0, "A"));
    assert_eq!(2, DNAReadGraph::get_lmer_index(&kmer_hash_table, 0, 2, "G"));
    assert_eq!(4, DNAReadGraph::get_lmer_index(&kmer_hash_table, 0, 4, "G"));
}

#[test]
fn test_get_lmer_index_2() {
    let mut segments: Vec<String> = Vec::<String>::new();
    let k: usize = 3;
    segments.push("ATGTG".to_string());
    let kmer_hash_table = DNAHashTable::new(&segments, k);
    assert_eq!(0, DNAReadGraph::get_lmer_index(&kmer_hash_table, 0, 0, "ATG"));
    assert_eq!(1, DNAReadGraph::get_lmer_index(&kmer_hash_table, 0, 1, "TGT"));
    assert_eq!(2, DNAReadGraph::get_lmer_index(&kmer_hash_table, 0, 2, "GTG"));
}

#[test]
fn test_get_lmer_index_3() {
    let mut segments: Vec<String> = Vec::<String>::new();
    let k: usize = 3;
    segments.push("ATGTG".to_string());
    segments.push("GTGC".to_string());
    let kmer_hash_table = DNAHashTable::new(&segments, k);
    assert_eq!(0, DNAReadGraph::get_lmer_index(&kmer_hash_table, 0, 0, "ATG"));
    assert_eq!(1, DNAReadGraph::get_lmer_index(&kmer_hash_table, 0, 1, "TGT"));
    assert_eq!(2, DNAReadGraph::get_lmer_index(&kmer_hash_table, 0, 2, "GTG"));
    assert_eq!(3, DNAReadGraph::get_lmer_index(&kmer_hash_table, 1, 0, "GTG"));
    assert_eq!(4, DNAReadGraph::get_lmer_index(&kmer_hash_table, 1, 1, "TGC"));
}

// The substitution lists of a node are indexed A, C, G, T.
#[test]
fn test_create_dna_read_graph_1() {
    let mut segments: Vec<String> = Vec::<String>::new();
    let l: usize = 3;
    let k: usize = 1;
    let d: usize = 8;
    segments.push("ATGTG".to_string());
    let dna_read_graph = DNAReadGraph::new(&segments, l, k, d);
    assert_eq!(kmer(0, 0, 0), dna_read_graph.nodes[0].lmer);
    assert_eq!(no_lists(3), dna_read_graph.nodes[0].near_reads[0]);
    assert_eq!(vec![vec![2], Vec::<usize>::new(), Vec::<usize>::new()], dna_read_graph.nodes[0].near_reads[2]);
    assert_eq!(kmer(0, 1, 1), dna_read_graph.nodes[1].lmer);
    assert_eq!(kmer(0, 2, 2), dna_read_graph.nodes[2].lmer);
}

#[test]
fn test_create_dna_read_graph_2() {
    let mut segments: Vec<String> = Vec::<String>::new();
    let l: usize = 3;
    let k: usize = 1;
    let d: usize = 1;
    segments.push("ATGAG".to_string());
    let dna_read_graph = DNAReadGraph::new(&segments, l, k, d);
    assert_eq!(kmer(0, 0, 0), dna_read_graph.nodes[0].lmer);
    assert_eq!(no_lists(3), dna_read_graph.nodes[0].near_reads[0]);
    assert_eq!(no_lists(3), dna_read_graph.nodes[0].near_reads[2]);
    assert_eq!(kmer(0, 1, 1), dna_read_graph.nodes[1].lmer);
    assert_eq!(kmer(0, 2, 2), dna_read_graph.nodes[2].lmer);
}

#[test]
fn test_create_dna_read_graph_3() {
    let mut segments: Vec<String> = Vec::<String>::new();
    let l: usize = 3;
    let k: usize = 1;
    let d: usize = 1;
    segments.push("ATTTT".to_string());
    let dna_read_graph = DNAReadGraph::new(&segments, l, k, d);
    assert_eq!(kmer(0, 0, 0), dna_read_graph.nodes[0].lmer);
    assert_eq!(no_lists(3), dna_read_graph.nodes[0].near_reads[0]);
    assert_eq!(no_lists(3), dna_read_graph.nodes[0].near_reads[2]);
    assert_eq!(vec![vec![1, 2], Vec::<usize>::new(), Vec::<usize>::new()], dna_read_graph.nodes[0].near_reads[3]);
    assert_eq!(kmer(0, 1, 1), dna_read_graph.nodes[1].lmer);
    assert_eq!(kmer(0, 2, 2), dna_read_graph.nodes[2].lmer);
}
