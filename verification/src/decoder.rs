use std::hash::Hash;
use vstd::prelude::*;
use vstd::std_specs::hash::obeys_key_model;

use crate::bits::{
    bit_seq, bitvec_wf, fits_in, pushed_all, stored_bits, strings_bits, yielded_bits, BitString,
    BitVec, BitVecIter, BitVecView,
};
use crate::compressor::{clone_is_exact, code_pieces, Compressor};
use crate::trie::Trie;

verus! {

broadcast use vstd::std_specs::hash::group_hash_axioms;

/// The bits of a code, most significant first.
pub open spec fn code_bits(b: BitString) -> Seq<u32> {
    bit_seq(b@.0, b@.1 as nat)
}

/// `t` holds the table `codes` read backwards: every value it stores is a symbol of the
/// table, stored under that symbol's code, and every code leads to a value.
pub open spec fn trie_of_table<T>(t: Trie<T>, codes: Map<T, BitString>) -> bool {
    &&& forall|p: Seq<u32>|
        #![trigger t.lookup(p)]
        t.lookup(p) matches Some(x) ==> codes.contains_key(x) && code_bits(codes[x]) == p
    &&& forall|x: T| #[trigger] codes.contains_key(x) ==> t.lookup(code_bits(codes[x])) is Some
}

/// What a walk down the trie from position `k` of `s` yields: the first value met
/// below the root, with the position after the last bit read; the value of the node
/// where the path leaves the trie; or nothing when the bits run out.
pub open spec fn walk<T>(t: Trie<T>, s: Seq<u32>, k: int) -> (Option<T>, int)
    decreases s.len() - k,
{
    if k >= s.len() {
        (None, k)
    } else {
        match t.child(s[k]) {
            Some(c) => if c.root_value() is Some {
                (c.root_value(), k + 1)
            } else {
                walk(c, s, k + 1)
            },
            None => (t.root_value(), k + 1),
        }
    }
}

/// The symbols decoded from position `k` of `s`, one walk after the other, until a walk
/// yields nothing.
pub open spec fn decode_from<T>(t: Trie<T>, s: Seq<u32>, k: int) -> Seq<T>
    decreases s.len() - k,
{
    let (r, k2) = walk(t, s, k);
    if r is Some && k < k2 <= s.len() {
        seq![r->0] + decode_from(t, s, k2)
    } else {
        seq![]
    }
}

/// A walk that starts inside the bits consumes at least one and stays within them.
pub proof fn lemma_walk_bounds<T>(t: Trie<T>, s: Seq<u32>, k: int)
    requires
        0 <= k <= s.len(),
    ensures
        walk(t, s, k).1 <= s.len(),
        k < s.len() ==> k < walk(t, s, k).1,
        k == s.len() ==> walk(t, s, k) == (None::<T>, k),
    decreases s.len() - k,
{
    if k < s.len() {
        if let Some(c) = t.child(s[k]) {
            if c.root_value() is None {
                lemma_walk_bounds(c, s, k + 1);
            }
        }
    }
}

/// `a` is a prefix of `b`.
pub open spec fn is_prefix(a: Seq<u32>, b: Seq<u32>) -> bool {
    a.len() <= b.len() && b.take(a.len() as int) == a
}

/// No code of the table is a prefix of the code of another symbol (so no two symbols
/// share a code).
pub open spec fn prefix_free<T>(codes: Map<T, BitString>) -> bool {
    forall|a: T, b: T|
        #![trigger codes[a], codes[b]]
        codes.contains_key(a) && codes.contains_key(b) && a != b ==> !is_prefix(
            code_bits(codes[a]),
            code_bits(codes[b]),
        )
}

/// Every code of the table has between 1 and 32 bits and no bit set beyond its size.
pub open spec fn codes_well_formed<T>(codes: Map<T, BitString>) -> bool {
    forall|x: T|
        #[trigger] codes.contains_key(x) ==> 1 <= codes[x]@.1 <= 32 && fits_in(
            codes[x]@.0,
            codes[x]@.1,
        )
}

proof fn lemma_walk_code<T>(t: Trie<T>, c: Seq<u32>, s: Seq<u32>, k: int, x: T)
    requires
        t.lookup(c) == Some(x),
        c.len() >= 1,
        forall|j: int| 1 <= j < c.len() ==> (#[trigger] t.lookup(c.take(j))) is None,
        0 <= k,
        k + c.len() <= s.len(),
        s.subrange(k, k + c.len()) == c,
    ensures
        walk(t, s, k) == (Some(x), k + c.len()),
    decreases c.len(),
{
    assert(s[k] == c[0]) by {
        assert(s.subrange(k, k + c.len())[0] == s[k]);
    }
    let ch = t.child(c[0])->0;
    assert(t.child(c[0]) is Some);
    assert(c.take(1).drop_first() =~= Seq::<u32>::empty());
    if c.len() == 1 {
        assert(c.drop_first() =~= Seq::<u32>::empty());
    } else {
        assert(t.lookup(c.take(1)) is None);
        assert(c.take(1)[0] == c[0]);
        assert(ch.lookup(c.take(1).drop_first()) == ch.root_value());
        assert(ch.root_value() is None);
        let c2 = c.drop_first();
        assert forall|j: int| 1 <= j < c2.len() implies (#[trigger] ch.lookup(c2.take(j))) is None by {
            assert(c.take(j + 1).drop_first() =~= c2.take(j));
            assert(c.take(j + 1)[0] == c[0]);
            assert(t.lookup(c.take(j + 1)) is None);
        }
        assert(s.subrange(k + 1, k + 1 + c2.len()) =~= c2);
        lemma_walk_code(ch, c2, s, k + 1, x);
    }
}

proof fn lemma_code_leads<T>(t: Trie<T>, codes: Map<T, BitString>, x: T)
    requires
        trie_of_table(t, codes),
        prefix_free(codes),
        codes.contains_key(x),
    ensures
        t.lookup(code_bits(codes[x])) == Some(x),
        forall|j: int|
            1 <= j < code_bits(codes[x]).len() ==> (#[trigger] t.lookup(
                code_bits(codes[x]).take(j),
            )) is None,
{
    let c = code_bits(codes[x]);
    let z = t.lookup(c)->0;
    assert(t.lookup(c) is Some);
    if z != x {
        assert(code_bits(codes[z]) == c);
        assert(c.take(c.len() as int) =~= c);
        assert(!is_prefix(code_bits(codes[z]), code_bits(codes[x])));
    }
    assert forall|j: int| 1 <= j < c.len() implies (#[trigger] t.lookup(c.take(j))) is None by {
        if t.lookup(c.take(j)) is Some {
            let y = t.lookup(c.take(j))->0;
            assert(code_bits(codes[y]) == c.take(j));
            assert(y != x);
            assert(!is_prefix(code_bits(codes[y]), code_bits(codes[x])));
        }
    }
}

proof fn lemma_strings_bits_append(a: Seq<(u32, u32)>, b: Seq<(u32, u32)>)
    ensures
        strings_bits(a + b) =~= strings_bits(a) + strings_bits(b),
    decreases b.len(),
{
    if b.len() > 0 {
        assert((a + b).drop_last() =~= a + b.drop_last());
        assert((a + b).last() == b.last());
        lemma_strings_bits_append(a, b.drop_last());
    } else {
        assert(a + b =~= a);
    }
}

proof fn lemma_decode_suffix<T>(
    t: Trie<T>,
    codes: Map<T, BitString>,
    xs: Seq<T>,
    i: int,
)
    requires
        trie_of_table(t, codes),
        prefix_free(codes),
        codes_well_formed(codes),
        forall|j: int| 0 <= j < xs.len() ==> codes.contains_key(#[trigger] xs[j]),
        0 <= i <= xs.len(),
    ensures
        decode_from(
            t,
            strings_bits(code_pieces(codes, xs)),
            strings_bits(code_pieces(codes, xs).take(i)).len() as int,
        ) == xs.skip(i),
    decreases xs.len() - i,
{
    let ps = code_pieces(codes, xs);
    let s = strings_bits(ps);
    let k = strings_bits(ps.take(i)).len() as int;
    lemma_strings_bits_append(ps.take(i), ps.skip(i));
    assert(ps.take(i) + ps.skip(i) =~= ps);
    if i == xs.len() {
        assert(ps.take(i) =~= ps);
        lemma_walk_bounds(t, s, k);
        assert(xs.skip(i) =~= Seq::<T>::empty());
    } else {
        let x = xs[i];
        let c = code_bits(codes[x]);
        assert(ps.take(i + 1).drop_last() =~= ps.take(i));
        assert(ps.take(i + 1).last() == codes[x]@);
        lemma_strings_bits_append(ps.take(i + 1), ps.skip(i + 1));
        assert(ps.take(i + 1) + ps.skip(i + 1) =~= ps);
        let k2 = strings_bits(ps.take(i + 1)).len() as int;
        assert(strings_bits(ps.take(i + 1)) == strings_bits(ps.take(i)) + c);
        assert(s.subrange(k, k + c.len()) =~= c);
        lemma_code_leads(t, codes, x);
        lemma_walk_code(t, c, s, k, x);
        lemma_decode_suffix(t, codes, xs, i + 1);
        assert(xs.skip(i) =~= seq![x] + xs.skip(i + 1));
    }
}

/// Decoding the concatenated codes of a sequence of symbols gives the symbols back,
/// when the table is prefix free and its codes are well formed.
pub proof fn lemma_decode_codes<T>(t: Trie<T>, codes: Map<T, BitString>, xs: Seq<T>)
    requires
        trie_of_table(t, codes),
        prefix_free(codes),
        codes_well_formed(codes),
        forall|j: int| 0 <= j < xs.len() ==> codes.contains_key(#[trigger] xs[j]),
    ensures
        decode_from(t, strings_bits(code_pieces(codes, xs)), 0) == xs,
{
    lemma_decode_suffix(t, codes, xs, 0);
    assert(code_pieces(codes, xs).take(0) =~= Seq::<(u32, u32)>::empty());
    assert(xs.skip(0) =~= xs);
}

/// The words of a bit vector that the iterator reads in full: it yields all the stored
/// bits unless the last word is exactly full.
pub proof fn lemma_yielded_is_stored(v: BitVecView)
    requires
        v.0.len() == 0 || v.1 != 0,
    ensures
        yielded_bits(v) == stored_bits(v),
{
}

/// Round trip: decoding what `Compressor::compress` made of `xs`, with the decoder
/// `Decoder::new` made of the same table, gives `xs` back, when the table is prefix free
/// and well formed and the last word of the compressed bits is not exactly full.
pub proof fn lemma_compress_decode_roundtrip<T: Hash + Clone + Eq>(
    comp: Compressor<T>,
    dec: Decoder<T>,
    xs: Seq<T>,
    compressed: BitVec,
)
    requires
        trie_of_table(dec.trie(), comp@),
        prefix_free(comp@),
        codes_well_formed(comp@),
        forall|j: int| 0 <= j < xs.len() ==> comp@.contains_key(#[trigger] xs[j]),
        compressed@ == pushed_all((Seq::<u32>::empty(), 0u32), code_pieces(comp@, xs)),
        stored_bits(compressed@) == strings_bits(code_pieces(comp@, xs)),
        compressed@.0.len() == 0 || compressed@.1 != 0,
    ensures
        decode_from(dec.trie(), yielded_bits(compressed@), 0) == xs,
{
    lemma_decode_codes(dec.trie(), comp@, xs);
}

/// Decodes bit vectors with a prefix tree of codes.
#[derive(Debug)]
pub struct Decoder<T: Hash + Clone + Eq> {
    trie: Trie<T>,
}

impl<T: Hash + Clone + Eq> Decoder<T> {
    /// The prefix tree of the codes.
    pub closed spec fn trie(self) -> Trie<T> {
        self.trie
    }

    /// A decoder for the code table of `map`.
    pub fn new(map: &Compressor<T>) -> (r: Decoder<T>)
        requires
            obeys_key_model::<T>(),
            clone_is_exact::<T>(),
            forall|x: T| #[trigger] map@.contains_key(x) ==> map@[x]@.1 <= 32,
        ensures
            trie_of_table(r.trie(), map@),
    {
        let mut trie: Trie<T> = Trie::new();
        let ghost m = map@;
        let hm = map.get_map();
        for kv in it: hm.iter()
            invariant
                m == map@,
                hm@ == m,
                obeys_key_model::<T>(),
                clone_is_exact::<T>(),
                forall|x: T| #[trigger] m.contains_key(x) ==> m[x]@.1 <= 32,
                forall|j: int|
                    0 <= j < it.seq().len() ==> m.contains_key(*#[trigger] it.seq()[j].0) && m[*it.seq()[j].0]
                        == *it.seq()[j].1,
                forall|p: Seq<u32>|
                    #![trigger trie.lookup(p)]
                    trie.lookup(p) matches Some(x) ==> m.contains_key(x) && code_bits(m[x]) == p,
                forall|j: int|
                    #![trigger it.seq()[j]]
                    0 <= j < it.index() ==> trie.lookup(code_bits(m[*it.seq()[j].0])) is Some,
                it.index() == it.seq().len() ==> forall|x: T| #[trigger]
                    m.contains_key(x) ==> trie.lookup(code_bits(m[x])) is Some,
        {
            let (key, val) = kv;
            let nums = val.nums();
            let k = key.clone();
            trie.insert(nums.as_slice(), k);
            assert forall|x: T| #[trigger]
                m.contains_key(x) && it.index() + 1 == it.seq().len() implies trie.lookup(
                code_bits(m[x]),
            ) is Some by {
                assert(hm@.contains_key(x));
                assert(it.seq().contains((&x, &m[x])));
                let j = choose|j: int| 0 <= j < it.seq().len() && it.seq()[j] == (&x, &m[x]);
                assert(*it.seq()[j].0 == x);
            }
        }
        Decoder { trie }
    }

    /// The symbols decoded from the bits of `bits`.
    pub fn decode(&self, bits: &BitVec) -> (r: Vec<T>)
        requires
            bitvec_wf(bits@),
            bits@.0.len() <= u32::MAX,
            clone_is_exact::<T>(),
        ensures
            r@ == decode_from(self.trie(), yielded_bits(bits@), 0),
    {
        let mut ret: Vec<T> = Vec::new();
        let mut each_bit = bits.iter();
        let ghost s = each_bit.bits();
        loop
            invariant_except_break
                each_bit.wf(),
                each_bit.bits() == s,
                clone_is_exact::<T>(),
                ret@ + decode_from(self.trie(), s, each_bit.pos()) == decode_from(
                    self.trie(),
                    s,
                    0,
                ),
            ensures
                ret@ == decode_from(self.trie(), s, 0),
            decreases s.len() - each_bit.pos(),
        {
            let ghost k = each_bit.pos();
            proof {
                each_bit.lemma_pos_in_range();
                lemma_walk_bounds(self.trie(), s, k);
            }
            match self.next_symbol(&mut each_bit) {
                Some(add) => {
                    proof {
                        assert(decode_from(self.trie(), s, k) == seq![add] + decode_from(
                            self.trie(),
                            s,
                            each_bit.pos(),
                        ));
                    }
                    ret.push(add);
                    assert(ret@ + decode_from(self.trie(), s, each_bit.pos()) =~= decode_from(
                        self.trie(),
                        s,
                        0,
                    ));
                },
                None => {
                    assert(ret@ =~= ret@ + decode_from(self.trie(), s, k));
                    break ;
                },
            }
        }
        ret
    }

    fn next_symbol(&self, bits: &mut BitVecIter) -> (r: Option<T>)
        requires
            old(bits).wf(),
            clone_is_exact::<T>(),
        ensures
            final(bits).wf(),
            final(bits).bits() == old(bits).bits(),
            (r, final(bits).pos()) == walk(self.trie(), old(bits).bits(), old(bits).pos()),
    {
        let ghost s = bits.bits();
        let ghost p0 = bits.pos();
        let mut trie = &self.trie;
        loop
            invariant
                bits.wf(),
                bits.bits() == s,
                s == old(bits).bits(),
                p0 == old(bits).pos(),
                clone_is_exact::<T>(),
                walk(*trie, s, bits.pos()) == walk(self.trie(), s, p0),
            decreases s.len() - bits.pos(),
        {
            let ghost k = bits.pos();
            match bits.next() {
                Some(i) => {
                    match trie.get_node(i) {
                        Some(n) => {
                            trie = n;
                            match trie.value() {
                                Some(x) => {
                                    return Some(x.clone());
                                },
                                None => {},
                            }
                        },
                        None => {
                            return match trie.value() {
                                Some(x) => Some(x.clone()),
                                None => None,
                            };
                        },
                    }
                },
                None => {
                    return None;
                },
            }
        }
    }
}

} // verus!
