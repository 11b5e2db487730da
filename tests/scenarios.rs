use std::collections::HashMap;
use tuna::args::{check_config, ConfigError};
use tuna::dna_hash_table::{DNAHashTable, Kmer};
use tuna::dna_read_graph::DNAReadGraph;
use tuna::map_reduce::{partition_reads, perform_map_reduce};
use tuna::read_inputs::{
    is_char_RNA, is_char_header, parse_fa_entries, parse_fa_lines, parse_fq_fasta_lines, FaEntry,
};

fn strings(v: &[&str]) -> Vec<String> {
    v.iter().map(|s| s.to_string()).collect()
}

fn matched_positions(table: &DNAHashTable, q: &str) -> Option<Vec<(usize, usize)>> {
    table
        .get_kmer(q)
        .map(|(bucket, idx)| idx.iter().map(|i| (bucket[*i].segment_index, bucket[*i].position)).collect())
}

#[test]
fn single_base_windows_scenario() {
    let segments = strings(&["ATGTG"]);
    assert_eq!(7, DNAHashTable::get_table_size(&segments, 1));
    let table = DNAHashTable::new(&segments, 1);
    assert_eq!(Some(vec![(0, 0)]), matched_positions(&table, "A"));
    let (bucket, idx) = table.get_kmer("G").unwrap();
    let found: Vec<Kmer> = idx.iter().map(|i| bucket[*i].clone()).collect();
    assert_eq!(
        vec![
            Kmer { segment_index: 0, position: 2, creation_time: 2 },
            Kmer { segment_index: 0, position: 4, creation_time: 4 }
        ],
        found
    );
}

#[test]
fn three_base_windows_scenario() {
    let segments = strings(&["ATGTG"]);
    let table = DNAHashTable::new(&segments, 3);
    assert_eq!(Some(vec![(0, 2)]), matched_positions(&table, "GTG"));
    assert_eq!(None, matched_positions(&table, "TAT"));
}

#[test]
fn vote_position_scenario() {
    let segments = strings(&["ATGTGACGCCGATG", "GTGC"]);
    let table = DNAHashTable::new(&segments, 3);
    assert_eq!(Some((0, 0)), table.get_most_likely_position(&segments, "ATGT"));
    assert_eq!(Some((0, 5)), table.get_most_likely_position(&segments, "ACGCCGA"));
}

#[test]
fn every_window_found_once_per_occurrence() {
    let segments = strings(&["ACGACG", "CGA"]);
    let table = DNAHashTable::new(&segments, 3);
    assert_eq!(Some(vec![(0, 0), (0, 3)]), matched_positions(&table, "ACG"));
    assert_eq!(Some(vec![(0, 1), (1, 0)]), matched_positions(&table, "CGA"));
    assert_eq!(Some(vec![(0, 2)]), matched_positions(&table, "GAC"));
    assert_eq!(None, matched_positions(&table, "ACGA"));
}

#[test]
fn table_size_is_least_prime_above_target() {
    // 8 windows: ceil(10.4) = 11, itself prime.
    assert_eq!(11, DNAHashTable::get_table_size(&strings(&["ACGTACGTAC"]), 3));
    // 10 windows: 13.
    assert_eq!(13, DNAHashTable::get_table_size(&strings(&["ACGTACGTAC"]), 1));
    // 4 windows: ceil(5.2) = 6, next prime 7.
    assert_eq!(7, DNAHashTable::get_table_size(&strings(&["ACGT", "ACGT"]), 3));
    // 1 window: 2.
    assert_eq!(2, DNAHashTable::get_table_size(&strings(&["ACG"]), 3));
}

#[test]
fn hash_reads_only_the_prefix() {
    assert_eq!(DNAHashTable::hash_function("ACGT", 2, 7), DNAHashTable::hash_function("ACTT", 2, 7));
    assert_eq!((0 + 1 * 4) % 7, DNAHashTable::hash_function("ACTT", 2, 7));
    assert_eq!(31, DNAHashTable::integer_log_base_4(usize::MAX));
    assert_eq!(2, DNAHashTable::dna_to_int('G'));
    assert_eq!(0, DNAHashTable::dna_to_int('N'));
}

#[test]
fn prefix_collision_is_not_a_match() {
    let a33 = "A".repeat(33);
    let a32c = format!("{}C", "A".repeat(32));
    let segments = vec![a33.clone(), a32c.clone()];
    let table = DNAHashTable::new(&segments, 33);
    let (bucket, idx) = table.get_kmer(&a33).unwrap();
    assert_eq!(2, bucket.len());
    assert_eq!(vec![0], idx);
    let (bucket, idx) = table.get_kmer(&a32c).unwrap();
    assert_eq!(2, bucket.len());
    assert_eq!(vec![1], idx);
}

#[test]
fn verbatim_probe_is_placed_where_it_came_from() {
    let segments = strings(&["ACGTTGCA", "GGATCCAA"]);
    let table = DNAHashTable::new(&segments, 2);
    assert_eq!(Some((1, 3)), table.get_most_likely_position(&segments, "TCCA"));
    assert_eq!(Some((0, 2)), table.get_most_likely_position(&segments, "GTTGC"));
    assert_eq!(None, table.get_most_likely_position(&segments, "A"));
}

#[test]
fn duplicate_windows_are_neighbours_at_distance_zero() {
    let segments = strings(&["ACGTACGT"]);
    let graph = DNAReadGraph::new(&segments, 4, 2, 0);
    assert_eq!(Some(&0), graph.nodes[0].read_distances.get(&4));
    assert_eq!(Some(&0), graph.nodes[4].read_distances.get(&0));
    for base in 0..4 {
        for offset in 0..4 {
            assert!(!graph.nodes[0].near_reads[base][offset].contains(&4));
            assert!(!graph.nodes[4].near_reads[base][offset].contains(&0));
        }
    }
}

#[test]
fn locate_is_repeatable() {
    let segments = strings(&["ACGTACGGTTCA", "TTGACCATGG"]);
    let graph = DNAReadGraph::new(&segments, 4, 2, 1);
    for read in ["ACGT", "GACC", "CATG", "GGGG", "TTTT"] {
        let first = graph.get_read_graph_segment_index(&segments, read, 4);
        let second = graph.get_read_graph_segment_index(&segments, read, 4);
        assert_eq!(first, second);
    }
    assert_eq!(Some(0), graph.get_read_graph_segment_index(&segments, "ACGT", 4));
    assert_eq!(Some(1), graph.get_read_graph_segment_index(&segments, "GACC", 4));
    assert_eq!(Some(1), graph.get_read_graph_segment_index(&segments, "CATG", 4));
}

#[test]
fn counts_per_segment() {
    let segments = strings(&["ACGTACGGTTCA", "TTGACCATGG"]);
    let graph = DNAReadGraph::new(&segments, 4, 2, 1);
    let reads = strings(&["ACGT", "GACC", "CATG", "GGGG"]);
    let counts = graph.get_read_segment_indexes(&segments, &reads);
    let mut expected: HashMap<i32, i32> = HashMap::new();
    expected.insert(0, 2);
    expected.insert(1, 2);
    assert_eq!(expected, counts);
}

#[test]
fn map_reduce_matches_sequential_counts() {
    let segments = strings(&["ACGTACGGTTCA", "TTGACCATGG"]);
    let graph = DNAReadGraph::new(&segments, 4, 2, 1);
    let reads = strings(&["ACGT", "GACC", "CATG", "GGGG", "TACG"]);
    let sequential = graph.get_read_segment_indexes(&segments, &reads);
    for n in [1, 2, reads.len()] {
        assert_eq!(sequential, perform_map_reduce(n, &segments, &reads, &graph));
    }
}

#[test]
fn partition_puts_remainder_last() {
    let reads = strings(&["A", "C", "G", "T", "AA"]);
    let chunks = partition_reads(&reads, 2);
    assert_eq!(vec![strings(&["A", "C"]), strings(&["G", "T", "AA"])], chunks);
    let chunks = partition_reads(&reads, 5);
    assert_eq!(5, chunks.len());
    assert_eq!(strings(&["AA"]), chunks[4]);
}

#[test]
fn config_errors() {
    let segments = strings(&["ACGTACGT", "ACGTA"]);
    assert_eq!(Err(ConfigError::KmerLength), check_config(&segments, 0, 4, 1, 3));
    assert_eq!(Err(ConfigError::KmerLength), check_config(&segments, 6, 6, 1, 3));
    assert_eq!(Err(ConfigError::LmerShorterThanKmer), check_config(&segments, 3, 2, 1, 3));
    assert_eq!(Err(ConfigError::LmerLength), check_config(&segments, 3, 6, 1, 3));
    assert_eq!(Err(ConfigError::PartitionCount), check_config(&segments, 3, 4, 0, 3));
    assert_eq!(Err(ConfigError::PartitionCount), check_config(&segments, 3, 4, 4, 3));
    assert_eq!(Err(ConfigError::InputTooLarge), check_config(&segments, 3, 4, 1, usize::MAX));
    assert_eq!(Ok(()), check_config(&segments, 3, 5, 3, 3));
}

#[test]
fn parse_records() {
    let lines = strings(&[">seq1 first record", "ACGU", "xxT", "@empty", "> two", "GG", "!seq3", "NNC"]);
    let db = parse_fa_lines(&lines);
    assert_eq!(strings(&["seq1", "", "seq3"]), db.seg_ids);
    assert_eq!(strings(&["ACGUT", "GG", "C"]), db.seg_strings);
    assert_eq!(strings(&["ACGUT", "GG", "C"]), parse_fq_fasta_lines(&lines));
    let entries = parse_fa_entries(&lines);
    assert_eq!(3, entries.len());
    assert_eq!("seq3", entries[2].seg_id);
    assert_eq!("C", entries[2].seg_string);
}

#[test]
fn record_constructors_and_character_classes() {
    let e = FaEntry::new();
    assert_eq!("", e.seg_id);
    assert_eq!("", e.seg_string);
    let e = FaEntry::from_read("id".to_string(), "ACGT".to_string());
    assert_eq!("id", e.seg_id);
    assert_eq!("ACGT", e.seg_string);
    assert!(is_char_RNA('U'));
    assert!(!is_char_RNA('N'));
    assert!(is_char_header('>'));
    assert!(!is_char_header('A'));
}

// A probe that occurs twice gets equal votes at both places: the earlier
// voted placement wins.
#[test]
fn repeated_probe_goes_to_first_voted_placement() {
    let segments = strings(&["ACGACG"]);
    let table = DNAHashTable::new(&segments, 3);
    assert_eq!(Some((0, 0)), table.get_most_likely_position(&segments, "ACG"));
}

#[test]
fn refinement_keeps_anchor_on_exact_read() {
    let segments = strings(&["ACGTACGA"]);
    let graph = DNAReadGraph::new(&segments, 4, 2, 1);
    // "ACGT" at 0 and "ACGA" at 4 differ in one place and share "AC" and "CG".
    assert_eq!(Some(&1), graph.nodes[0].read_distances.get(&4));
    assert_eq!(vec![4], graph.nodes[0].near_reads[0][3]);
    assert_eq!(vec![0], graph.nodes[4].near_reads[3][3]);
    assert_eq!(Some(0), graph.get_read_graph_segment_index(&segments, "ACGA", 4));
}
