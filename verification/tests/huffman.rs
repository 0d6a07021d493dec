use jpegzip::decoder::Decoder;
use jpegzip::huffman::{HuffLink, HuffNode, HuffmanEncoder};
use std::collections::HashMap;

fn code(c: &jpegzip::compressor::Compressor<&'static str>, k: &'static str) -> Vec<u32> {
    c.get_map().get(&k).unwrap().nums()
}

fn is_prefix(a: &[u32], b: &[u32]) -> bool {
    a.len() <= b.len() && &b[..a.len()] == a
}

#[test]
fn huff_node_new_links_nowhere() {
    let n = HuffNode::new(7);
    assert_eq!(n.value, 7);
    assert!(matches!(n.link, HuffLink::Nil));
}

#[test]
fn encode_four_symbols() {
    let mut h = HuffmanEncoder::new(&[("a", 20), ("b", 10), ("c", 25), ("d", 45)]);
    let c = h.encode(2);
    assert_eq!(c.get_map().len(), 4);
    assert_eq!(code(&c, "a"), vec![1, 1, 1]);
    assert_eq!(code(&c, "b"), vec![1, 1, 0]);
    assert_eq!(code(&c, "c"), vec![1, 0]);
    assert_eq!(code(&c, "d"), vec![0]);
}

#[test]
fn encoded_codes_are_prefix_free() {
    let mut h = HuffmanEncoder::new(&[("a", 1), ("b", 1), ("c", 1), ("d", 1), ("e", 9), ("f", 3)]);
    let c = h.encode(2);
    let keys = ["a", "b", "c", "d", "e", "f"];
    for x in keys.iter() {
        for y in keys.iter() {
            if x != y {
                assert!(!is_prefix(&code(&c, x), &code(&c, y)));
            }
        }
    }
}

#[test]
fn encode_equal_weights() {
    let mut h = HuffmanEncoder::new(&[("a", 1), ("b", 1), ("c", 1), ("d", 1)]);
    let c = h.encode(2);
    assert_eq!(code(&c, "a"), vec![1, 0]);
    assert_eq!(code(&c, "b"), vec![1, 1]);
    assert_eq!(code(&c, "c"), vec![0, 0]);
    assert_eq!(code(&c, "d"), vec![0, 1]);
}

#[test]
fn encode_single_symbol_gets_zero() {
    let mut h = HuffmanEncoder::new(&[("x", 5)]);
    let c = h.encode(2);
    assert_eq!(code(&c, "x"), vec![0]);
}

#[test]
fn encode_no_symbols() {
    let empty: Vec<(&'static str, u64)> = Vec::new();
    let mut h = HuffmanEncoder::new(&empty);
    let c = h.encode(2);
    assert_eq!(c.get_map().len(), 0);
}

#[test]
fn encode_from_map() {
    let mut m = HashMap::new();
    m.insert("a", 20u64);
    m.insert("b", 10);
    m.insert("c", 25);
    m.insert("d", 45);
    let mut h = HuffmanEncoder::from(m);
    let c = h.encode(2);
    assert_eq!(code(&c, "a"), vec![1, 1, 1]);
    assert_eq!(code(&c, "b"), vec![1, 1, 0]);
    assert_eq!(code(&c, "c"), vec![1, 0]);
    assert_eq!(code(&c, "d"), vec![0]);
}

#[test]
fn encode_then_decode_round_trip() {
    let mut h = HuffmanEncoder::new(&[("a", 20), ("b", 10), ("c", 25), ("d", 45)]);
    let c = h.encode(2);
    let d = Decoder::new(&c);
    let xs = vec!["a", "d", "c", "b", "d", "d", "a"];
    assert_eq!(d.decode(&c.compress(&xs)), xs);
}

#[test]
fn try_encode_larger_radix() {
    let mut few = HuffmanEncoder::new(&[("a", 3), ("b", 3)]);
    let c = few.try_encode(3).unwrap();
    assert_eq!(code(&c, "a"), vec![0]);
    assert_eq!(code(&c, "b"), vec![0]);
    let mut many = HuffmanEncoder::new(&[("a", 3), ("b", 3), ("c", 3)]);
    assert!(many.try_encode(3).is_none());
}

fn chain(n: usize) -> Vec<(usize, u64)> {
    let mut ws: Vec<u64> = vec![1, 1];
    let mut s: u64 = 2;
    while ws.len() < n {
        ws.push(s - 1);
        s = s + s - 1;
    }
    ws.truncate(n);
    ws.into_iter().enumerate().collect()
}

#[test]
fn try_encode_fails_on_long_codes() {
    let mut fits = HuffmanEncoder::new(&chain(33));
    let c = fits.try_encode(2).unwrap();
    assert_eq!(c.get_map().len(), 33);
    assert_eq!(c.get_map().get(&1).unwrap().nums(), vec![1; 32]);
    let mut too_long = HuffmanEncoder::new(&chain(34));
    assert!(too_long.try_encode(2).is_none());
}
