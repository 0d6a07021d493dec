use jpegzip::bits::{BitResult, BitString, BitVec};

fn drain(v: &BitVec) -> Vec<u32> {
    let mut it = v.iter();
    let mut out = Vec::new();
    while let Some(b) = it.next() {
        out.push(b);
    }
    out
}

#[test]
fn bit_string_new_reads_binary() {
    let s = BitString::new("0010000000000101");
    assert_eq!(s.nums(), vec![0, 0, 1, 0, 0, 0, 0, 0, 0, 0, 0, 0, 0, 1, 0, 1]);
    assert_eq!(s.leading_zeros(), 16);
    let t = BitString::new("0");
    assert_eq!(t.nums(), vec![0]);
    assert_eq!(t.leading_zeros(), 31);
}

#[test]
fn bit_string_from_keeps_value_and_size() {
    let s = BitString::from(5, 4);
    assert_eq!(s.nums(), vec![0, 1, 0, 1]);
    assert_eq!(s.leading_zeros(), 28);
}

#[test]
fn offset_all_and_cut() {
    let s = BitString::new("101");
    assert!(matches!(s.offset(29), BitResult::All(5)));
    assert!(matches!(s.offset(0), BitResult::All(0xa000_0000)));
    assert!(matches!(s.offset(30), BitResult::Cut(2, 1)));
    assert!(matches!(s.offset(31), BitResult::Cut(1, 1)));
}

#[test]
fn push_bits_then_iterate() {
    let mut v = BitVec::new();
    assert_eq!(v.len(), 0);
    v.push_bits(&BitString::new("101"));
    v.push_bits(&BitString::new("0011"));
    assert_eq!(v.len(), 1);
    assert_eq!(drain(&v), vec![1, 0, 1, 0, 0, 1, 1]);
}

#[test]
fn push_bits_across_words() {
    let mut v = BitVec::new();
    v.push_bits(&BitString::new("101"));
    v.push_bits(&BitString::from(0x8000_0001, 32));
    assert_eq!(v.len(), 2);
    let mut expect = vec![1, 0, 1, 1];
    expect.extend(vec![0; 30]);
    expect.push(1);
    assert_eq!(drain(&v), expect);
}

#[test]
fn full_last_word_is_not_yielded() {
    let mut v = BitVec::new();
    v.push_bits(&BitString::new("0010000000000101"));
    v.push_bits(&BitString::new("0010000000000101"));
    assert_eq!(v.len(), 1);
    assert_eq!(drain(&v), Vec::<u32>::new());
}

#[test]
fn push_bitvec_appends() {
    let mut a = BitVec::new();
    a.push_bits(&BitString::new("101"));
    let mut b = BitVec::new();
    b.push_bits(&BitString::new("11"));
    a.push_bitvec(&b);
    assert_eq!(drain(&a), vec![1, 0, 1, 1, 1]);
}

#[test]
fn empty_bitvec_yields_nothing() {
    let v = BitVec::new();
    assert_eq!(drain(&v), Vec::<u32>::new());
}

#[test]
fn bitvec_text_shows_offset_and_words() {
    let mut v = BitVec::new();
    assert_eq!(v.to_string(), "0\n");
    v.push_bits(&BitString::new("101"));
    assert_eq!(v.to_string(), "3\n0b10100000000000000000000000000000\n");
    v.push_bits(&BitString::from(0xffff_ffff, 32));
    assert_eq!(
        v.to_string(),
        "3\n0b10111111111111111111111111111111\n0b11100000000000000000000000000000\n"
    );
}
