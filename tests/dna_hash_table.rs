use tuna::dna_hash_table::{DNAHashTable, Kmer};

fn kmer(segment_index: usize, position: usize, creation_time: usize) -> Kmer {
    Kmer { segment_index, position, creation_time }
}

#[test]
fn test_hash_function_1() {
    let kmer_1: &str = "ATG";
    assert_eq!((0 * 1 + 3 * 4 + 2 * 16) % 3, DNAHashTable::hash_function(kmer_1, kmer_1.len(), 3));
}

#[test]
fn test_hash_function_2() {
    let kmer_1: &str = "TGAC";
    assert_eq!((3 * 1 + 2 * 4 + 0 * 16 + 1 * 64) % 5, DNAHashTable::hash_function(kmer_1, kmer_1.len(), 5));
}

#[test]
fn test_hash_function_3() {
    let kmer_1: &str = "AAGTCT";
    assert_eq!(
        (0 * 1 + 0 * 4 + 2 * 16 + 3 * 64 + 1 * 256 + 3 * 1024) % 7,
        DNAHashTable::hash_function(kmer_1, kmer_1.len(), 7)
    );
}

#[test]
fn test_hash_table_create_1() {
    let mut segments: Vec<String> = Vec::<String>::new();
    let k: usize = 1;
    segments.push("ATGTG".to_string());
    let kmer_hash_table = DNAHashTable::new(&segments, k);
    assert_eq!(7, kmer_hash_table.size);
    assert_eq!(vec![kmer(0, 0, 0)], kmer_hash_table.hash_table[0]);
    assert_eq!(Vec::<Kmer>::new(), kmer_hash_table.hash_table[1]);
    assert_eq!(vec![kmer(0, 2, 2), kmer(0, 4, 4)], kmer_hash_table.hash_table[2]);
    assert_eq!(vec![kmer(0, 1, 1), kmer(0, 3, 3)], kmer_hash_table.hash_table[3]);
}

// Three windows need a table of at least ceil(1.3 * 3) = 4 buckets: the
// least prime from there is 5.
#[test]
fn test_hash_table_create_2() {
    let mut segments: Vec<String> = Vec::<String>::new();
    let k: usize = 3;
    segments.push("ATGTG".to_string());
    let kmer_hash_table = DNAHashTable::new(&segments, k);
    assert_eq!(5, kmer_hash_table.size);
    assert_eq!(Vec::<Kmer>::new(), kmer_hash_table.hash_table[0]);
    assert_eq!(vec![kmer(0, 2, 2)], kmer_hash_table.hash_table[1]);
    assert_eq!(vec![kmer(0, 0, 0), kmer(0, 1, 1)], kmer_hash_table.hash_table[4]);
}

#[test]
fn test_hash_table_create_3() {
    let mut segments: Vec<String> = Vec::<String>::new();
    let k: usize = 3;
    segments.push("ATGTG".to_string());
    segments.push("GTGC".to_string());
    let kmer_hash_table = DNAHashTable::new(&segments, k);
    assert_eq!(7, kmer_hash_table.size);
    assert_eq!(Vec::<Kmer>::new(), kmer_hash_table.hash_table[0]);
    assert_eq!(Vec::<Kmer>::new(), kmer_hash_table.hash_table[1]);
    assert_eq!(vec![kmer(0, 0, 0)], kmer_hash_table.hash_table[2]);
    assert_eq!(vec![kmer(0, 1, 1)], kmer_hash_table.hash_table[3]);
    assert_eq!(vec![kmer(0, 2, 2), kmer(1, 0, 3)], kmer_hash_table.hash_table[4]);
    assert_eq!(Vec::<Kmer>::new(), kmer_hash_table.hash_table[5]);
    assert_eq!(vec![kmer(1, 1, 4)], kmer_hash_table.hash_table[6]);
}

#[test]
fn test_hash_table_get_1() {
    let mut segments: Vec<String> = Vec::<String>::new();
    let k: usize = 1;
    segments.push("ATGTG".to_string());
    let kmer_hash_table = DNAHashTable::new(&segments, k);
    assert_eq!(Some((&vec![kmer(0, 0, 0)], vec![0])), kmer_hash_table.get_kmer("A"));
    assert_eq!(Some((&vec![kmer(0, 2, 2), kmer(0, 4, 4)], vec![0, 1])), kmer_hash_table.get_kmer("G"));
    assert_eq!(Some((&vec![kmer(0, 1, 1), kmer(0, 3, 3)], vec![0, 1])), kmer_hash_table.get_kmer("T"));
}

#[test]
fn test_hash_table_get_2() {
    let mut segments: Vec<String> = Vec::<String>::new();
    let k: usize = 3;
    segments.push("ATGTG".to_string());
    let kmer_hash_table = DNAHashTable::new(&segments, k);
    let vec_1: &Vec<Kmer> = &vec![kmer(0, 0, 0), kmer(0, 1, 1)];
    assert_eq!(None, kmer_hash_table.get_kmer("TAT"));
    assert_eq!(None, kmer_hash_table.get_kmer("TATT"));
    assert_eq!(Some((&vec![kmer(0, 2, 2)], vec![0])), kmer_hash_table.get_kmer("GTG"));
    assert_eq!(Some((vec_1, vec![0])), kmer_hash_table.get_kmer("ATG"));
    assert_eq!(Some((vec_1, vec![1])), kmer_hash_table.get_kmer("TGT"));
}

#[test]
fn test_hash_table_get_3() {
    let mut segments: Vec<String> = Vec::<String>::new();
    let k: usize = 3;
    segments.push("ATGTG".to_string());
    segments.push("GTGC".to_string());
    let kmer_hash_table = DNAHashTable::new(&segments, k);
    assert_eq!(None, kmer_hash_table.get_kmer("TAT"));
    assert_eq!(Some((&vec![kmer(0, 0, 0)], vec![0])), kmer_hash_table.get_kmer("ATG"));
    assert_eq!(Some((&vec![kmer(0, 1, 1)], vec![0])), kmer_hash_table.get_kmer("TGT"));
    assert_eq!(Some((&vec![kmer(0, 2, 2), kmer(1, 0, 3)], vec![0, 1])), kmer_hash_table.get_kmer("GTG"));
    assert_eq!(Some((&vec![kmer(1, 1, 4)], vec![0])), kmer_hash_table.get_kmer("TGC"));
}

#[test]
fn test_get_max_j_1() {
    assert_eq!(31, DNAHashTable::get_max_j(100));
    assert_eq!(3, DNAHashTable::get_max_j(3));
}

#[test]
fn test_get_most_likely_position_1() {
    let mut segments: Vec<String> = Vec::<String>::new();
    let k: usize = 3;
    segments.push("ATGTGACGCCGATG".to_string());
    segments.push("GTGC".to_string());
    let kmer_hash_table = DNAHashTable::new(&segments, k);
    assert_eq!(Some((0, 0)), kmer_hash_table.get_most_likely_position(&segments, "ATGT"));
    assert_eq!(Some((0, 5)), kmer_hash_table.get_most_likely_position(&segments, "ACGCCGA"));
}

#[test]
fn test_get_most_likely_position_2() {
    let mut segments: Vec<String> = Vec::<String>::new();
    let k: usize = 3;
    segments.push("ATGTGATGCCGATG".to_string());
    segments.push("GTGCGATGATAGAG".to_string());
    let kmer_hash_table = DNAHashTable::new(&segments, k);
    assert_eq!(Some((1, 4)), kmer_hash_table.get_most_likely_position(&segments, "CATGATA"));
}
