use jpegzip::bits::BitString;
use jpegzip::compressor::Compressor;
use jpegzip::decoder::Decoder;
use jpegzip::trie::Trie;
use std::collections::HashMap;

fn table() -> Compressor<u8> {
    let mut m = HashMap::new();
    m.insert(1u8, BitString::new("1"));
    m.insert(2u8, BitString::new("01"));
    m.insert(3u8, BitString::new("00"));
    Compressor::from(m)
}

#[test]
fn trie_insert_and_lookup() {
    let mut t: Trie<char> = Trie::new();
    assert!(t.value().is_none());
    t.insert(&[1, 0], 'x');
    t.insert(&[0], 'y');
    assert_eq!(t.get_mapping(&[1, 0]), Some(&'x'));
    assert_eq!(t.get_mapping(&[0]), Some(&'y'));
    assert_eq!(t.get_mapping(&[1]), None);
    assert_eq!(t.get_mapping(&[1, 1]), None);
    let n = t.get_node(1).unwrap().get_node(0).unwrap();
    assert_eq!(n.value(), &Some('x'));
    assert!(t.get_node(2).is_none());
    t.insert(&[1, 0], 'z');
    assert_eq!(t.get_mapping(&[1, 0]), Some(&'z'));
}

#[test]
fn compress_concatenates_codes() {
    let c = table();
    assert_eq!(c.get_map().len(), 3);
    let bits = c.compress(&[1, 2, 3, 1]);
    assert_eq!(bits.len(), 1);
    let mut it = bits.iter();
    let mut out = Vec::new();
    while let Some(b) = it.next() {
        out.push(b);
    }
    assert_eq!(out, vec![1, 0, 1, 0, 0, 1]);
}

#[test]
fn decode_gives_back_what_was_compressed() {
    let c = table();
    let d = Decoder::new(&c);
    let xs = vec![1u8, 2, 3, 1, 1, 3, 2];
    assert_eq!(d.decode(&c.compress(&xs)), xs);
    let empty: Vec<u8> = Vec::new();
    assert_eq!(d.decode(&c.compress(&empty)), empty);
}

#[test]
fn decode_across_words() {
    let c = table();
    let d = Decoder::new(&c);
    let xs: Vec<u8> = (0..40).map(|i| (i % 3) as u8 + 1).collect();
    assert_eq!(d.decode(&c.compress(&xs)), xs);
}

#[test]
fn option_tables_split_and_join() {
    let c = table();
    let delim = BitString::new("111");
    let with = Compressor::to_option(delim, &c);
    assert_eq!(with.get_map().len(), 4);
    assert_eq!(with.get_map().get(&None).unwrap().nums(), vec![1, 1, 1]);
    assert_eq!(with.get_map().get(&Some(2)).unwrap().nums(), vec![0, 1]);
    let (none, back) = Compressor::from_option(with);
    assert_eq!(none.unwrap().nums(), vec![1, 1, 1]);
    assert_eq!(back.get_map().len(), 3);
    assert_eq!(back.get_map().get(&3).unwrap().nums(), vec![0, 0]);
}

#[test]
fn from_option_without_none() {
    let mut m = HashMap::new();
    m.insert(Some(4u8), BitString::new("10"));
    let (none, back) = Compressor::from_option(Compressor::from(m));
    assert!(none.is_none());
    assert_eq!(back.get_map().get(&4).unwrap().nums(), vec![1, 0]);
}

#[test]
fn frequency_count_adds_occurrences() {
    let mut counts: HashMap<Option<i8>, u64> = HashMap::new();
    counts.insert(None, 3);
    counts.insert(Some(-2), 4);
    jpegzip::frequency_count(&mut counts, &[1, -2, 1, 7]);
    assert_eq!(counts.len(), 4);
    assert_eq!(counts[&None], 3);
    assert_eq!(counts[&Some(1)], 2);
    assert_eq!(counts[&Some(-2)], 5);
    assert_eq!(counts[&Some(7)], 1);
}

#[test]
fn frequency_count_saturates() {
    let mut counts: HashMap<Option<i8>, u64> = HashMap::new();
    counts.insert(Some(0), u64::MAX);
    jpegzip::frequency_count(&mut counts, &[0]);
    assert_eq!(counts[&Some(0)], u64::MAX);
}

#[test]
fn bit_string_size() {
    assert_eq!(BitString::new("0101").size(), 4);
    assert_eq!(BitString::from(0, 40).size(), 40);
}
