use std::collections::HashMap;
use std::hash::Hash;
use vstd::prelude::*;
use vstd::std_specs::hash::obeys_key_model;

use crate::bits::{
    bit_of, bit_seq, fits_in, pushed_all, stored_bits, strings_bits, yielded_bits, BitString, BitVec,
};
use crate::compressor::{clone_is_exact, code_pieces, Compressor};
use crate::decoder::{
    code_bits, codes_well_formed, decode_from, is_prefix, lemma_compress_decode_roundtrip, prefix_free,
    trie_of_table, Decoder,
};

verus! {

broadcast use vstd::std_specs::hash::group_hash_axioms;

/// A node of the Huffman structure: a weight and the link to the node of the next level
/// that stands for it.
#[derive(Debug, Clone, Copy)]
pub struct HuffNode {
    pub value: u64,
    pub link: HuffLink,
}

/// Where a node goes in the next level: merged into a parent under a digit, carried over
/// unchanged as a copy, or nowhere yet.
#[derive(Debug, Clone, Copy)]
pub enum HuffLink {
    Dotted(usize),
    Solid(u32, usize),
    Nil,
}

/// The node a link leads to (0 for none).
pub open spec fn link_target(l: HuffLink) -> usize {
    match l {
        HuffLink::Dotted(q) => q,
        HuffLink::Solid(_, q) => q,
        HuffLink::Nil => 0,
    }
}

/// The weight of node `id`.
pub open spec fn weight(nodes: Seq<HuffNode>, id: usize) -> u64 {
    nodes[id as int].value
}

/// Inserts `x` into `s` after the last element whose weight is at most that of `x`
/// (the step of a stable insertion sort by weight).
pub open spec fn insert_id(nodes: Seq<HuffNode>, s: Seq<usize>, x: usize) -> Seq<usize>
    decreases s.len(),
{
    if s.len() == 0 || weight(nodes, s.last()) <= weight(nodes, x) {
        s.push(x)
    } else {
        insert_id(nodes, s.drop_last(), x).push(s.last())
    }
}

/// `s` sorted by weight, ties kept in their order.
pub open spec fn sort_ids(nodes: Seq<HuffNode>, s: Seq<usize>) -> Seq<usize>
    decreases s.len(),
{
    if s.len() == 0 {
        s
    } else {
        insert_id(nodes, sort_ids(nodes, s.drop_last()), s.last())
    }
}

/// Inserts `x` into `s` after the last pair whose weight is at most that of `x`.
pub open spec fn insert_symbol<T>(s: Seq<(T, u64)>, x: (T, u64)) -> Seq<(T, u64)>
    decreases s.len(),
{
    if s.len() == 0 || s.last().1 <= x.1 {
        s.push(x)
    } else {
        insert_symbol(s.drop_last(), x).push(s.last())
    }
}

/// `s` sorted by weight, ties kept in their order.
pub open spec fn sort_symbols<T>(s: Seq<(T, u64)>) -> Seq<(T, u64)>
    decreases s.len(),
{
    if s.len() == 0 {
        s
    } else {
        insert_symbol(sort_symbols(s.drop_last()), s.last())
    }
}

proof fn lemma_insert_id_at(nodes: Seq<HuffNode>, s: Seq<usize>, x: usize, j: int)
    requires
        0 <= j <= s.len(),
        forall|k: int| j <= k < s.len() ==> weight(nodes, #[trigger] s[k]) > weight(nodes, x),
        j == 0 || weight(nodes, s[j - 1]) <= weight(nodes, x),
    ensures
        insert_id(nodes, s, x) == s.insert(j, x),
    decreases s.len(),
{
    if j == s.len() {
        assert(s.insert(j, x) =~= s.push(x));
    } else {
        lemma_insert_id_at(nodes, s.drop_last(), x, j);
        assert(s.drop_last().insert(j, x).push(s.last()) =~= s.insert(j, x));
    }
}

proof fn lemma_insert_symbol_at<T>(s: Seq<(T, u64)>, x: (T, u64), j: int)
    requires
        0 <= j <= s.len(),
        forall|k: int| j <= k < s.len() ==> (#[trigger] s[k]).1 > x.1,
        j == 0 || s[j - 1].1 <= x.1,
    ensures
        insert_symbol(s, x) == s.insert(j, x),
    decreases s.len(),
{
    if j == s.len() {
        assert(s.insert(j, x) =~= s.push(x));
    } else {
        lemma_insert_symbol_at(s.drop_last(), x, j);
        assert(s.drop_last().insert(j, x).push(s.last()) =~= s.insert(j, x));
    }
}

/// Sorting keeps the length and the elements, and adds no repetition.
pub proof fn lemma_sort_ids(nodes: Seq<HuffNode>, s: Seq<usize>)
    ensures
        sort_ids(nodes, s).len() == s.len(),
        forall|y: usize|
            #![trigger sort_ids(nodes, s).contains(y)]
            #![trigger s.contains(y)]
            sort_ids(nodes, s).contains(y) <==> s.contains(y),
        s.no_duplicates() ==> sort_ids(nodes, s).no_duplicates(),
    decreases s.len(),
{
    if s.len() > 0 {
        let p = s.drop_last();
        lemma_sort_ids(nodes, p);
        lemma_insert_id(nodes, sort_ids(nodes, p), s.last());
        assert forall|y: usize| s.contains(y) <==> (p.contains(y) || y == s.last()) by {
            if s.contains(y) {
                let k = choose|k: int| 0 <= k < s.len() && s[k] == y;
                if k < s.len() - 1 {
                    assert(p[k] == y);
                }
            }
            if p.contains(y) {
                let k = choose|k: int| 0 <= k < p.len() && p[k] == y;
                assert(s[k] == y);
            }
            if y == s.last() {
                assert(s[s.len() - 1] == y);
            }
        }
        if s.no_duplicates() {
            assert(p.no_duplicates());
            assert(!p.contains(s.last())) by {
                if p.contains(s.last()) {
                    let k = choose|k: int| 0 <= k < p.len() && p[k] == s.last();
                    assert(s[k] == s[s.len() - 1]);
                }
            }
        }
    }
}

proof fn lemma_insert_id(nodes: Seq<HuffNode>, s: Seq<usize>, x: usize)
    ensures
        insert_id(nodes, s, x).len() == s.len() + 1,
        forall|y: usize|
            #![trigger insert_id(nodes, s, x).contains(y)]
            #![trigger s.contains(y)]
            insert_id(nodes, s, x).contains(y) <==> (s.contains(y) || y == x),
        s.no_duplicates() && !s.contains(x) ==> insert_id(nodes, s, x).no_duplicates(),
    decreases s.len(),
{
    let r = insert_id(nodes, s, x);
    if s.len() == 0 || weight(nodes, s.last()) <= weight(nodes, x) {
        assert forall|y: usize| r.contains(y) <==> (s.contains(y) || y == x) by {
            if r.contains(y) {
                let k = choose|k: int| 0 <= k < r.len() && r[k] == y;
                if k < s.len() {
                    assert(s[k] == y);
                }
            }
            if s.contains(y) {
                let k = choose|k: int| 0 <= k < s.len() && s[k] == y;
                assert(r[k] == y);
            }
            if y == x {
                assert(r[s.len() as int] == y);
            }
        }
    } else {
        let p = s.drop_last();
        let q = insert_id(nodes, p, x);
        lemma_insert_id(nodes, p, x);
        assert forall|y: usize| r.contains(y) <==> (s.contains(y) || y == x) by {
            if r.contains(y) {
                let k = choose|k: int| 0 <= k < r.len() && r[k] == y;
                if k < q.len() {
                    assert(q[k] == y);
                    assert(q.contains(y));
                    if p.contains(y) {
                        let m = choose|m: int| 0 <= m < p.len() && p[m] == y;
                        assert(s[m] == y);
                    }
                } else {
                    assert(s[s.len() - 1] == y);
                }
            }
            if s.contains(y) {
                let k = choose|k: int| 0 <= k < s.len() && s[k] == y;
                if k < s.len() - 1 {
                    assert(p[k] == y);
                    assert(p.contains(y));
                    assert(q.contains(y));
                    let m = choose|m: int| 0 <= m < q.len() && q[m] == y;
                    assert(r[m] == y);
                } else {
                    assert(r[r.len() - 1] == y);
                }
            }
            if y == x {
                assert(q.contains(x));
                let m = choose|m: int| 0 <= m < q.len() && q[m] == x;
                assert(r[m] == x);
            }
        }
        if s.no_duplicates() && !s.contains(x) {
            assert(p.no_duplicates());
            assert(!p.contains(x)) by {
                if p.contains(x) {
                    let m = choose|m: int| 0 <= m < p.len() && p[m] == x;
                    assert(s[m] == x);
                }
            }
            assert(!q.contains(s.last())) by {
                if p.contains(s.last()) {
                    let m = choose|m: int| 0 <= m < p.len() && p[m] == s.last();
                    assert(s[m] == s[s.len() - 1]);
                }
                assert(s[s.len() - 1] != x);
            }
            assert forall|a: int, b: int| 0 <= a < r.len() && 0 <= b < r.len() && a != b implies r[a]
                != r[b] by {
                if a < q.len() && b < q.len() {
                } else if a < q.len() {
                    assert(q.contains(r[a]));
                } else if b < q.len() {
                    assert(q.contains(r[b]));
                }
            }
        }
    }
}

proof fn lemma_insert_id_sorted(nodes: Seq<HuffNode>, s: Seq<usize>, x: usize)
    requires
        forall|i: int, j: int| 0 <= i < j < s.len() ==> weight(nodes, #[trigger] s[i]) <= weight(nodes, #[trigger] s[j]),
    ensures
        forall|i: int, j: int|
            0 <= i < j < insert_id(nodes, s, x).len() ==> weight(nodes, #[trigger] insert_id(nodes, s, x)[i])
                <= weight(nodes, #[trigger] insert_id(nodes, s, x)[j]),
        forall|i: int|
            0 <= i < insert_id(nodes, s, x).len() ==> weight(nodes, #[trigger] insert_id(nodes, s, x)[i])
                <= weight(nodes, x) || (s.len() > 0 && weight(nodes, insert_id(nodes, s, x)[i]) <= weight(nodes, s.last())),
    decreases s.len(),
{
    lemma_insert_id(nodes, s, x);
    if s.len() > 0 && weight(nodes, s.last()) > weight(nodes, x) {
        let p = s.drop_last();
        lemma_insert_id_sorted(nodes, p, x);
        lemma_insert_id(nodes, p, x);
        let q = insert_id(nodes, p, x);
        let r = insert_id(nodes, s, x);
        assert forall|i: int| 0 <= i < q.len() implies weight(nodes, #[trigger] q[i]) <= weight(nodes, s.last()) by {
            if weight(nodes, q[i]) > weight(nodes, x) {
                assert(p.len() > 0);
                assert(weight(nodes, p.last()) <= weight(nodes, s.last())) by {
                    assert(p.last() == s[s.len() - 2]);
                }
            }
        }
        assert forall|i: int, j: int| 0 <= i < j < r.len() implies weight(nodes, #[trigger] r[i]) <= weight(nodes, #[trigger] r[j]) by {
            if j == r.len() - 1 {
                assert(r[j] == s.last());
                assert(r[i] == q[i]);
            } else {
                assert(r[i] == q[i]);
                assert(r[j] == q[j]);
            }
        }
        assert forall|i: int| 0 <= i < r.len() implies weight(nodes, #[trigger] r[i]) <= weight(nodes, x) || (s.len() > 0 && weight(nodes, r[i]) <= weight(nodes, s.last())) by {
            if i < r.len() - 1 {
                assert(r[i] == q[i]);
            }
        }
    } else {
        let r = insert_id(nodes, s, x);
        assert forall|i: int, j: int| 0 <= i < j < r.len() implies weight(nodes, #[trigger] r[i]) <= weight(nodes, #[trigger] r[j]) by {
            if j == r.len() - 1 {
                if s.len() > 0 {
                    assert(weight(nodes, s[i]) <= weight(nodes, s.last())) by {
                        if i < s.len() - 1 {
                            assert(weight(nodes, s[i]) <= weight(nodes, s[s.len() - 1]));
                        }
                    }
                }
            }
        }
        assert forall|i: int| 0 <= i < r.len() implies weight(nodes, #[trigger] r[i]) <= weight(nodes, x) || (s.len() > 0 && weight(nodes, r[i]) <= weight(nodes, s.last())) by {
            if i < s.len() {
                if i < s.len() - 1 {
                    assert(weight(nodes, s[i]) <= weight(nodes, s[s.len() - 1]));
                }
            }
        }
    }
}

/// The sort puts the ids in order of weight, lightest first.
pub proof fn lemma_sort_ids_sorted(nodes: Seq<HuffNode>, s: Seq<usize>)
    ensures
        forall|i: int, j: int|
            0 <= i < j < sort_ids(nodes, s).len() ==> weight(nodes, #[trigger] sort_ids(nodes, s)[i])
                <= weight(nodes, #[trigger] sort_ids(nodes, s)[j]),
    decreases s.len(),
{
    if s.len() > 0 {
        lemma_sort_ids_sorted(nodes, s.drop_last());
        lemma_insert_id_sorted(nodes, sort_ids(nodes, s.drop_last()), s.last());
    }
}

proof fn lemma_insert_symbol_sorted<T>(s: Seq<(T, u64)>, x: (T, u64))
    requires
        forall|i: int, j: int| 0 <= i < j < s.len() ==> (#[trigger] s[i]).1 <= (#[trigger] s[j]).1,
    ensures
        forall|i: int, j: int|
            0 <= i < j < insert_symbol(s, x).len() ==> (#[trigger] insert_symbol(s, x)[i]).1 <= (
            #[trigger] insert_symbol(s, x)[j]).1,
        forall|i: int|
            0 <= i < insert_symbol(s, x).len() ==> (#[trigger] insert_symbol(s, x)[i]).1 <= x.1 || (s.len()
                > 0 && insert_symbol(s, x)[i].1 <= s.last().1),
    decreases s.len(),
{
    lemma_insert_symbol_len(s, x);
    let r = insert_symbol(s, x);
    if s.len() > 0 && s.last().1 > x.1 {
        let p = s.drop_last();
        lemma_insert_symbol_sorted(p, x);
        lemma_insert_symbol_len(p, x);
        let q = insert_symbol(p, x);
        assert forall|i: int| 0 <= i < q.len() implies (#[trigger] q[i]).1 <= s.last().1 by {
            if q[i].1 > x.1 {
                assert(p.last() == s[s.len() - 2]);
            }
        }
        assert forall|i: int, j: int| 0 <= i < j < r.len() implies (#[trigger] r[i]).1 <= (
        #[trigger] r[j]).1 by {
            assert(r[i] == q[i]);
            if j < r.len() - 1 {
                assert(r[j] == q[j]);
            }
        }
        assert forall|i: int| 0 <= i < r.len() implies (#[trigger] r[i]).1 <= x.1 || (s.len() > 0
            && r[i].1 <= s.last().1) by {
            if i < r.len() - 1 {
                assert(r[i] == q[i]);
            }
        }
    } else {
        assert forall|i: int, j: int| 0 <= i < j < r.len() implies (#[trigger] r[i]).1 <= (
        #[trigger] r[j]).1 by {
            if j == r.len() - 1 && s.len() > 0 && i < s.len() - 1 {
                assert(s[i].1 <= s[s.len() - 1].1);
            }
        }
        assert forall|i: int| 0 <= i < r.len() implies (#[trigger] r[i]).1 <= x.1 || (s.len() > 0
            && r[i].1 <= s.last().1) by {
            if i < s.len() - 1 {
                assert(s[i].1 <= s[s.len() - 1].1);
            }
        }
    }
}

/// The symbols come out of the sort lightest first.
pub proof fn lemma_sort_symbols_sorted<T>(s: Seq<(T, u64)>)
    ensures
        forall|i: int, j: int|
            0 <= i < j < sort_symbols(s).len() ==> (#[trigger] sort_symbols(s)[i]).1 <= (
            #[trigger] sort_symbols(s)[j]).1,
    decreases s.len(),
{
    if s.len() > 0 {
        lemma_sort_symbols_sorted(s.drop_last());
        lemma_insert_symbol_sorted(sort_symbols(s.drop_last()), s.last());
    }
}

proof fn lemma_insert_pairs<T>(nodes: Seq<HuffNode>, syms: Seq<(T, u64)>, t: Seq<usize>, x: usize)
    requires
        x < syms.len(),
        forall|k: int| 0 <= k < t.len() ==> (#[trigger] t[k]) < syms.len(),
        forall|id: usize| id < syms.len() ==> #[trigger] weight(nodes, id) == syms[id as int].1,
    ensures
        insert_symbol(t.map_values(|id: usize| syms[id as int]), syms[x as int]) == insert_id(
            nodes,
            t,
            x,
        ).map_values(|id: usize| syms[id as int]),
    decreases t.len(),
{
    let f = |id: usize| syms[id as int];
    let tm = t.map_values(f);
    if t.len() == 0 {
        assert(tm.push(f(x)) =~= t.push(x).map_values(f));
    } else {
        assert(tm.last() == f(t.last()));
        assert(tm.drop_last() =~= t.drop_last().map_values(f));
        if weight(nodes, t.last()) <= weight(nodes, x) {
            assert(tm.push(f(x)) =~= t.push(x).map_values(f));
        } else {
            lemma_insert_pairs(nodes, syms, t.drop_last(), x);
            assert(insert_symbol(tm, f(x)) == insert_symbol(tm.drop_last(), f(x)).push(tm.last()));
            assert(insert_id(nodes, t.drop_last(), x).map_values(f).push(f(t.last())) =~= insert_id(
                nodes,
                t.drop_last(),
                x,
            ).push(t.last()).map_values(f));
        }
    }
}

proof fn lemma_sort_pairs<T>(nodes: Seq<HuffNode>, syms: Seq<(T, u64)>, s: Seq<usize>)
    requires
        forall|k: int| 0 <= k < s.len() ==> (#[trigger] s[k]) < syms.len(),
        forall|id: usize| id < syms.len() ==> #[trigger] weight(nodes, id) == syms[id as int].1,
    ensures
        sort_symbols(s.map_values(|id: usize| syms[id as int])) == sort_ids(nodes, s).map_values(
            |id: usize| syms[id as int],
        ),
    decreases s.len(),
{
    let f = |id: usize| syms[id as int];
    if s.len() == 0 {
        assert(s.map_values(f) =~= Seq::<(T, u64)>::empty());
        assert(sort_ids(nodes, s).map_values(f) =~= Seq::<(T, u64)>::empty());
    } else {
        let p = s.drop_last();
        lemma_sort_pairs(nodes, syms, p);
        lemma_sort_ids(nodes, p);
        assert(s.map_values(f).drop_last() =~= p.map_values(f));
        assert(s.map_values(f).last() == f(s.last()));
        let sp = sort_ids(nodes, p);
        assert forall|k: int| 0 <= k < sp.len() implies (#[trigger] sp[k]) < syms.len() by {
            assert(sp.contains(sp[k]));
            let j = choose|j: int| 0 <= j < p.len() && p[j] == sp[k];
            assert(s[j] == p[j]);
        }
        lemma_insert_pairs(nodes, syms, sp, s.last());
    }
}

/// In the state that encoding a fresh encoder leaves, the `i`-th symbol is the symbol of
/// the `i`-th leaf: the table gives each symbol the code of its own leaf.
pub proof fn lemma_symbols_match_leaves<T>(syms: Seq<(T, u64)>, r: nat, i: int)
    requires
        0 <= i < syms.len(),
        syms.len() <= usize::MAX,
    ensures
        encoded(initial_state(syms), r).1[0][i] < syms.len(),
        encoded(initial_state(syms), r).2[i] == syms[encoded(initial_state(syms), r).1[0][i] as int],
{
    let st = initial_state(syms);
    let ids = st.1[0];
    let f = |id: usize| syms[id as int];
    let lv0 = sort_last(st.0, st.1);
    assert(lv0[0] == sort_ids(st.0, ids));
    lemma_build_level0(st.0, lv0, r);
    assert forall|id: usize| id < syms.len() implies #[trigger] weight(st.0, id) == syms[id as int].1 by {}
    assert(ids.map_values(f) =~= syms);
    lemma_sort_pairs(st.0, syms, ids);
    lemma_sort_ids(st.0, ids);
    let srt = sort_ids(st.0, ids);
    assert(srt.contains(srt[i]));
    assert(ids.contains(srt[i]));
}

proof fn lemma_insert_symbol_len<T>(s: Seq<(T, u64)>, x: (T, u64))
    ensures
        insert_symbol(s, x).len() == s.len() + 1,
    decreases s.len(),
{
    if s.len() > 0 && s.last().1 > x.1 {
        lemma_insert_symbol_len(s.drop_last(), x);
    }
}

/// Sorting the pairs keeps their number.
pub proof fn lemma_sort_symbols_len<T>(s: Seq<(T, u64)>)
    ensures
        sort_symbols(s).len() == s.len(),
    decreases s.len(),
{
    if s.len() > 0 {
        lemma_sort_symbols_len(s.drop_last());
        lemma_insert_symbol_len(sort_symbols(s.drop_last()), s.last());
    }
}

/// Where `x` goes in `out`: after the last id whose weight is at most that of `x`.
fn id_position(out: &Vec<usize>, x: usize, nodes: &Vec<HuffNode>) -> (j: usize)
    requires
        forall|k: int| 0 <= k < out@.len() ==> (#[trigger] out@[k]) < nodes@.len(),
        x < nodes@.len(),
    ensures
        j <= out@.len(),
        insert_id(nodes@, out@, x) == out@.insert(j as int, x),
{
    let mut j = out.len();
    while j > 0 && nodes[out[j - 1]].value > nodes[x].value
        invariant
            j <= out@.len(),
            forall|k: int| 0 <= k < out@.len() ==> (#[trigger] out@[k]) < nodes@.len(),
            x < nodes@.len(),
            forall|k: int| j <= k < out@.len() ==> weight(nodes@, #[trigger] out@[k]) > weight(nodes@, x),
        decreases j,
    {
        j = j - 1;
    }
    proof {
        lemma_insert_id_at(nodes@, out@, x, j as int);
    }
    j
}

/// `level` sorted by weight, ties kept in their order.
fn sort_level(level: &Vec<usize>, nodes: &Vec<HuffNode>) -> (r: Vec<usize>)
    requires
        forall|k: int| 0 <= k < level@.len() ==> (#[trigger] level@[k]) < nodes@.len(),
    ensures
        r@ == sort_ids(nodes@, level@),
{
    let mut out: Vec<usize> = Vec::new();
    let mut i: usize = 0;
    assert(level@.take(0) =~= Seq::<usize>::empty());
    while i < level.len()
        invariant
            i <= level@.len(),
            forall|k: int| 0 <= k < level@.len() ==> (#[trigger] level@[k]) < nodes@.len(),
            forall|k: int| 0 <= k < out@.len() ==> (#[trigger] out@[k]) < nodes@.len(),
            out@ == sort_ids(nodes@, level@.take(i as int)),
        decreases level@.len() - i,
    {
        let x = level[i];
        let j = id_position(&out, x, nodes);
        out.insert(j, x);
        proof {
            assert(level@.take(i + 1).drop_last() =~= level@.take(i as int));
        }
        i = i + 1;
    }
    assert(level@.take(level@.len() as int) =~= level@);
    out
}

/// Where `w` goes in `out`: after the last pair whose weight is at most `w`.
fn symbol_position<T>(out: &Vec<(T, u64)>, w: u64) -> (j: usize)
    ensures
        j <= out@.len(),
        forall|x: (T, u64)| x.1 == w ==> #[trigger] insert_symbol(out@, x) == out@.insert(j as int, x),
{
    let mut j = out.len();
    while j > 0 && out[j - 1].1 > w
        invariant
            j <= out@.len(),
            forall|k: int| j <= k < out@.len() ==> (#[trigger] out@[k]).1 > w,
        decreases j,
    {
        j = j - 1;
    }
    proof {
        assert forall|x: (T, u64)| x.1 == w implies #[trigger] insert_symbol(out@, x) == out@.insert(
            j as int,
            x,
        ) by {
            lemma_insert_symbol_at(out@, x, j as int);
        }
    }
    j
}

/// The pairs sorted by weight, ties kept in their order.
fn sort_symbol_vec<T>(src: Vec<(T, u64)>) -> (r: Vec<(T, u64)>)
    ensures
        r@ == sort_symbols(src@),
{
    let ghost orig = src@;
    let mut src = src;
    let mut out: Vec<(T, u64)> = Vec::new();
    assert(orig.take(0) =~= Seq::<(T, u64)>::empty());
    assert(orig.skip(0) =~= orig);
    while src.len() > 0
        invariant
            src@.len() <= orig.len(),
            src@ == orig.skip(orig.len() - src@.len()),
            out@ == sort_symbols(orig.take(orig.len() - src@.len())),
        decreases src@.len(),
    {
        let ghost k = orig.len() - src@.len();
        let x = src.remove(0);
        let j = symbol_position(&out, x.1);
        out.insert(j, x);
        proof {
            assert(x == orig[k]);
            assert(src@ =~= orig.skip(k + 1));
            assert(orig.take(k + 1).drop_last() =~= orig.take(k));
        }
    }
    assert(orig.take(orig.len() as int) =~= orig);
    out
}


/// The link a step gives the `p`-th node of the merged level: under digit `p` to the new
/// parent (id `base`) when `p < r`, to its own copy otherwise.
pub open spec fn link_at(r: nat, base: nat, p: nat) -> HuffLink {
    if p < r {
        HuffLink::Solid(p as u32, base as usize)
    } else {
        HuffLink::Dotted((base + 1 + (p - r)) as usize)
    }
}

/// `nodes` with the first `p` nodes of `level` linked as a step does.
pub open spec fn relink(nodes: Seq<HuffNode>, level: Seq<usize>, r: nat, p: nat) -> Seq<HuffNode>
    decreases p,
{
    if p == 0 {
        nodes
    } else {
        let id = level[p - 1];
        let prev = relink(nodes, level, r, (p - 1) as nat);
        if id < nodes.len() {
            prev.update(
                id as int,
                HuffNode { value: weight(nodes, id), link: link_at(r, nodes.len(), (p - 1) as nat) },
            )
        } else {
            prev
        }
    }
}

/// The weights of the first `p` nodes of `level` added up, saturating at `u64::MAX`.
pub open spec fn weight_sum(nodes: Seq<HuffNode>, level: Seq<usize>, p: nat) -> u64
    decreases p,
{
    if p == 0 {
        0
    } else {
        let s = weight_sum(nodes, level, (p - 1) as nat) + weight(nodes, level[p - 1]);
        if s > u64::MAX {
            u64::MAX
        } else {
            s as u64
        }
    }
}

/// The weights of the ids of `s` added up.
pub open spec fn total_weight(nodes: Seq<HuffNode>, s: Seq<usize>) -> int {
    s.fold_left(0int, |acc: int, id: usize| acc + weight(nodes, id))
}

/// The weight counted for the first `p` nodes of a level is their total weight, capped at
/// `u64::MAX`.
pub proof fn lemma_weight_sum_is_total(nodes: Seq<HuffNode>, level: Seq<usize>, p: nat)
    requires
        p <= level.len(),
    ensures
        weight_sum(nodes, level, p) as int == if total_weight(nodes, level.take(p as int))
            > u64::MAX {
            u64::MAX as int
        } else {
            total_weight(nodes, level.take(p as int))
        },
        total_weight(nodes, level.take(p as int)) >= 0,
    decreases p,
{
    let f = |acc: int, id: usize| acc + weight(nodes, id);
    if p == 0 {
        assert(level.take(0).fold_left(0int, f) == 0int);
    } else {
        lemma_weight_sum_is_total(nodes, level, (p - 1) as nat);
        let t = level.take(p as int);
        assert(t.drop_last() =~= level.take(p - 1));
        assert(t.last() == level[p - 1]);
        assert(t.fold_left(0int, f) == f(t.drop_last().fold_left(0int, f), t.last()));
    }
}

/// The node a step makes from the first `r` nodes of the last level weighs their total
/// weight (capped at `u64::MAX`), and links nowhere yet.
pub proof fn lemma_merged_node_weight(nodes: Seq<HuffNode>, level: Seq<usize>, r: nat)
    requires
        r <= level.len(),
    ensures
        step_nodes(nodes, level, r)[nodes.len() as int].value as int == if total_weight(
            nodes,
            level.take(r as int),
        ) > u64::MAX {
            u64::MAX as int
        } else {
            total_weight(nodes, level.take(r as int))
        },
        step_nodes(nodes, level, r)[nodes.len() as int].link is Nil,
{
    lemma_weight_sum_is_total(nodes, level, r);
    lemma_relink_len(nodes, level, r, level.len());
}

/// The copies of the nodes of `level` from position `r` on, `m` of them.
pub open spec fn copies(nodes: Seq<HuffNode>, level: Seq<usize>, r: nat, m: nat) -> Seq<HuffNode> {
    Seq::new(m, |j: int| HuffNode { value: weight(nodes, level[r + j]), link: HuffLink::Nil })
}

/// The ids `base`, `base + 1`, ..., `m` of them.
pub open spec fn id_run(base: nat, m: nat) -> Seq<usize> {
    Seq::new(m, |j: int| (base + j) as usize)
}

/// The nodes after one step on `level` with radix `r`: the first `r` nodes merged into a
/// new parent, the others carried over as copies.
pub open spec fn step_nodes(nodes: Seq<HuffNode>, level: Seq<usize>, r: nat) -> Seq<HuffNode> {
    relink(nodes, level, r, level.len()) + seq![
        HuffNode { value: weight_sum(nodes, level, r), link: HuffLink::Nil },
    ] + copies(nodes, level, r, (level.len() - r) as nat)
}

/// The levels after one step: a new level made of the parent and the copies.
pub open spec fn step_levels(nodes: Seq<HuffNode>, levels: Seq<Seq<usize>>, r: nat) -> Seq<
    Seq<usize>,
> {
    levels.push(id_run(nodes.len(), (levels.last().len() - r + 1) as nat))
}

/// The levels of a state: at least one, the first as long as the symbols, every id a
/// node, every link to a node, and no more nodes than a `usize` counts.
pub open spec fn state_wf<T>(nodes: Seq<HuffNode>, levels: Seq<Seq<usize>>, syms: Seq<(T, u64)>) -> bool {
    &&& nodes.len() <= usize::MAX
    &&& levels.len() >= 1
    &&& levels[0].len() == syms.len()
    &&& forall|l: int, k: int|
        0 <= l < levels.len() && 0 <= k < levels[l].len() ==> (#[trigger] levels[l][k]) < nodes.len()
    &&& forall|i: int|
        0 <= i < nodes.len() && !(nodes[i].link is Nil) ==> link_target(#[trigger] nodes[i].link)
            < nodes.len()
}

/// The state made from the pairs `s`: one leaf per pair, in one level.
pub open spec fn initial_state<T>(s: Seq<(T, u64)>) -> (Seq<HuffNode>, Seq<Seq<usize>>, Seq<(T, u64)>) {
    (
        Seq::new(s.len(), |i: int| HuffNode { value: s[i].1, link: HuffLink::Nil }),
        seq![Seq::new(s.len(), |i: int| i as usize)],
        s,
    )
}

/// The levels, as sequences of ids.
pub open spec fn levels_view(v: Seq<Vec<usize>>) -> Seq<Seq<usize>> {
    v.map_values(|l: Vec<usize>| l@)
}

proof fn lemma_relink(nodes: Seq<HuffNode>, level: Seq<usize>, r: nat, p: nat)
    requires
        p <= level.len(),
        forall|k: int| 0 <= k < level.len() ==> (#[trigger] level[k]) < nodes.len(),
    ensures
        relink(nodes, level, r, p).len() == nodes.len(),
        forall|i: int|
            0 <= i < nodes.len() ==> (#[trigger] relink(nodes, level, r, p)[i]).value == nodes[i].value,
    decreases p,
{
    if p > 0 {
        lemma_relink(nodes, level, r, (p - 1) as nat);
    }
}

proof fn lemma_relink_links(nodes: Seq<HuffNode>, level: Seq<usize>, r: nat, p: nat)
    requires
        p <= level.len(),
        r <= level.len(),
        nodes.len() + 1 + level.len() - r <= usize::MAX,
        forall|k: int| 0 <= k < level.len() ==> (#[trigger] level[k]) < nodes.len(),
        forall|i: int|
            0 <= i < nodes.len() && !(nodes[i].link is Nil) ==> link_target(#[trigger] nodes[i].link)
                < nodes.len(),
    ensures
        forall|i: int|
            0 <= i < nodes.len() && !(relink(nodes, level, r, p)[i].link is Nil) ==> link_target(
                #[trigger] relink(nodes, level, r, p)[i].link,
            ) < nodes.len() + 1 + level.len() - r,
    decreases p,
{
    lemma_relink(nodes, level, r, p);
    if p > 0 {
        lemma_relink_links(nodes, level, r, (p - 1) as nat);
        lemma_relink(nodes, level, r, (p - 1) as nat);
        let prev = relink(nodes, level, r, (p - 1) as nat);
        let cur = relink(nodes, level, r, p);
        let id = level[p - 1];
        assert forall|i: int|
            0 <= i < nodes.len() && !(cur[i].link is Nil) implies link_target(#[trigger] cur[i].link)
            < nodes.len() + 1 + level.len() - r by {
            if i != id {
                assert(cur[i] == prev[i]);
            }
        }
    }
}

/// `levels` with the last level sorted by weight.
pub open spec fn sort_last(nodes: Seq<HuffNode>, levels: Seq<Seq<usize>>) -> Seq<Seq<usize>> {
    levels.update(levels.len() - 1, sort_ids(nodes, levels.last()))
}

/// The nodes and levels after merging with radix `r` until the last level has fewer
/// than `r` nodes, sorting each new level by weight.
pub open spec fn build(nodes: Seq<HuffNode>, levels: Seq<Seq<usize>>, r: nat) -> (
    Seq<HuffNode>,
    Seq<Seq<usize>>,
)
    decreases levels.last().len(),
{
    if r >= 2 && levels.len() >= 1 && levels.last().len() >= r {
        let n2 = step_nodes(nodes, levels.last(), r);
        let run = id_run(nodes.len(), (levels.last().len() - r + 1) as nat);
        proof {
            lemma_sort_ids(n2, run);
        }
        build(n2, sort_last(n2, step_levels(nodes, levels, r)), r)
    } else {
        (nodes, levels)
    }
}

/// The state that encoding with radix `r` leaves: the symbols and the last level sorted,
/// then the levels built.
pub open spec fn encoded<T>(st: (Seq<HuffNode>, Seq<Seq<usize>>, Seq<(T, u64)>), r: nat) -> (
    Seq<HuffNode>,
    Seq<Seq<usize>>,
    Seq<(T, u64)>,
) {
    let b = build(st.0, sort_last(st.0, st.1), r);
    (b.0, b.1, sort_symbols(st.2))
}

/// The digits of the code of node `id` of level `l`, from the top level down: the digit
/// of each merge on the way up, the last merge first.
pub open spec fn code_digits(nodes: Seq<HuffNode>, levels: Seq<Seq<usize>>, l: nat, id: usize) -> Seq<
    u32,
>
    decreases levels.len() - l,
{
    if l >= levels.len() {
        seq![]
    } else {
        match nodes[id as int].link {
            HuffLink::Solid(d, q) => code_digits(nodes, levels, l + 1, q).push(d),
            HuffLink::Dotted(q) => code_digits(nodes, levels, l + 1, q),
            HuffLink::Nil => seq![],
        }
    }
}

/// The number written by the digits `d` in base 2, most significant first.
pub open spec fn binval(d: Seq<u32>) -> nat
    decreases d.len(),
{
    if d.len() == 0 {
        0
    } else {
        2 * binval(d.drop_last()) + d.last() as nat
    }
}

/// The digits are 0s and 1s and their number fits in a `u32`.
pub open spec fn code_fits(d: Seq<u32>) -> bool {
    &&& forall|k: int| 0 <= k < d.len() ==> #[trigger] d[k] <= 1
    &&& binval(d) <= u32::MAX
}

/// The bit string of the digits `d`, as value and size; the empty code is the one bit 0.
pub open spec fn code_entry(d: Seq<u32>) -> (u32, u32) {
    if d.len() == 0 {
        (0, 1)
    } else {
        (binval(d) as u32, d.len() as u32)
    }
}

/// The code digits of the leaf of the `i`-th symbol.
pub open spec fn leaf_code(nodes: Seq<HuffNode>, levels: Seq<Seq<usize>>, i: int) -> Seq<u32> {
    code_digits(nodes, levels, 0, levels[0][i])
}

/// The table of the first `n` symbols: each symbol to the bit string of its leaf, a later
/// symbol replacing an equal earlier one.
pub open spec fn code_table<T>(
    nodes: Seq<HuffNode>,
    levels: Seq<Seq<usize>>,
    syms: Seq<(T, u64)>,
    n: nat,
) -> Map<T, (u32, u32)>
    decreases n,
{
    if n == 0 {
        Map::empty()
    } else {
        code_table(nodes, levels, syms, (n - 1) as nat).insert(
            syms[n - 1].0,
            code_entry(leaf_code(nodes, levels, n - 1)),
        )
    }
}

/// Every symbol's code is made of 0s and 1s and fits in a `u32`.
pub open spec fn all_codes_fit<T>(st: (Seq<HuffNode>, Seq<Seq<usize>>, Seq<(T, u64)>)) -> bool {
    forall|i: int| 0 <= i < st.2.len() ==> code_fits(#[trigger] leaf_code(st.0, st.1, i))
}

/// The table of all symbols of a state.
pub open spec fn table_of<T>(st: (Seq<HuffNode>, Seq<Seq<usize>>, Seq<(T, u64)>)) -> Map<T, (u32, u32)> {
    code_table(st.0, st.1, st.2, st.2.len())
}

/// The value and size of each bit string of a table.
pub open spec fn bit_views<T>(m: Map<T, BitString>) -> Map<T, (u32, u32)> {
    m.map_values(|b: BitString| b@)
}

proof fn lemma_code_len(nodes: Seq<HuffNode>, levels: Seq<Seq<usize>>, l: nat, id: usize)
    ensures
        l <= levels.len() ==> code_digits(nodes, levels, l, id).len() <= levels.len() - l,
    decreases levels.len() - l,
{
    if l < levels.len() {
        match nodes[id as int].link {
            HuffLink::Solid(d, q) => lemma_code_len(nodes, levels, l + 1, q),
            HuffLink::Dotted(q) => lemma_code_len(nodes, levels, l + 1, q),
            HuffLink::Nil => {},
        }
    }
}

proof fn lemma_fits_push(d: Seq<u32>, x: u32)
    ensures
        code_fits(d.push(x)) <==> (code_fits(d) && x <= 1 && 2 * binval(d) + x <= u32::MAX),
        binval(d.push(x)) == 2 * binval(d) + x,
{
    let e = d.push(x);
    assert(e.drop_last() =~= d);
    if code_fits(e) {
        assert forall|k: int| 0 <= k < d.len() implies #[trigger] d[k] <= 1 by {
            assert(e[k] == d[k]);
        }
        assert(e[d.len() as int] == x);
    }
}

/// `s` lists the entries of `m`: as many pairs as keys, each pair an entry, each key in
/// a pair.
pub open spec fn lists_map<T>(s: Seq<(T, u64)>, m: Map<T, u64>) -> bool {
    &&& s.len() == m.dom().len()
    &&& forall|i: int| 0 <= i < s.len() ==> #[trigger] m.contains_key(s[i].0) && m[s[i].0] == s[i].1
    &&& forall|k: T| #[trigger] m.contains_key(k) ==> exists|i: int| 0 <= i < s.len() && #[trigger] s[i].0 == k
}

/// The entries that a map iterator hands out, by value.
pub open spec fn entries_of<T>(s: Seq<(&T, &u64)>) -> Seq<(T, u64)> {
    s.map_values(|p: (&T, &u64)| (*p.0, *p.1))
}

proof fn lemma_listing<T>(s: Seq<(&T, &u64)>, m: Map<T, u64>, n: int)
    requires
        s.len() == m.dom().len(),
        forall|i: int| 0 <= i < s.len() ==> m.contains_key(*#[trigger] s[i].0) && m[*s[i].0] == *s[i].1,
        forall|k: T| #[trigger] m.contains_key(k) ==> s.contains((&k, &m[k])),
    ensures
        n == s.len() ==> lists_map(entries_of(s.take(n)), m),
{
    assert(s.take(s.len() as int) =~= s);
    let e = entries_of(s);
    assert forall|i: int| 0 <= i < e.len() implies #[trigger] m.contains_key(e[i].0) && m[e[i].0]
        == e[i].1 by {
        assert(m.contains_key(*s[i].0));
    }
    assert forall|k: T| #[trigger] m.contains_key(k) implies exists|i: int|
        0 <= i < e.len() && #[trigger] e[i].0 == k by {
        assert(s.contains((&k, &m[k])));
        let i = choose|i: int| 0 <= i < s.len() && s[i] == (&k, &m[k]);
        assert(e[i].0 == k);
    }
}

proof fn lemma_bv_half(v: u32, k: u32)
    by (bit_vector)
    requires
        k <= 31,
        v >> k == 0,
    ensures
        v <= 0x7fff_ffff,
{
}

proof fn lemma_bv_shift(v: u32, x: u32, w: u32, k: u32)
    by (bit_vector)
    requires
        v <= 0x7fff_ffff,
        x <= 1,
        w == v * 2 + x,
        k < 31,
    ensures
        (w >> (k + 1)) & 1 == (v >> k) & 1,
        (w >> 0u32) & 1 == x,
        v >> k == 0 ==> w >> (k + 1) == 0,
{
}

/// Digits 0 and 1, at most 32 of them, are the bits of the number they write.
pub proof fn lemma_digits_bits(d: Seq<u32>)
    requires
        d.len() <= 32,
        forall|k: int| 0 <= k < d.len() ==> #[trigger] d[k] <= 1,
    ensures
        binval(d) <= u32::MAX,
        bit_seq(binval(d) as u32, d.len()) == d,
        fits_in(binval(d) as u32, d.len() as u32),
        d.len() < 32 ==> (binval(d) as u32) >> (d.len() as u32) == 0,
    decreases d.len(),
{
    if d.len() == 0 {
        assert(bit_seq(0, 0) =~= d);
        assert(0u32 >> 0u32 == 0u32) by (bit_vector);
    } else {
        let p = d.drop_last();
        let x = d.last();
        let n = d.len();
        assert forall|k: int| 0 <= k < p.len() implies #[trigger] p[k] <= 1 by {
            assert(d[k] <= 1);
        }
        lemma_digits_bits(p);
        let v = binval(p) as u32;
        lemma_bv_half(v, (n - 1) as u32);
        assert(d[n - 1] <= 1);
        let w = (v * 2 + x) as u32;
        assert(binval(d) == w);
        let b = bit_seq(w, n);
        assert forall|i: int| 0 <= i < n implies #[trigger] b[i] == d[i] by {
            if i == n - 1 {
                lemma_bv_shift(v, x, w, 0);
                assert(bit_of(w, 0) == x);
            } else {
                let k = (n - 2 - i) as u32;
                lemma_bv_shift(v, x, w, k);
                assert(bit_seq(v, p.len())[i] == p[i]);
                assert(bit_of(w, (k + 1) as u32) == bit_of(v, k));
            }
        }
        assert(b =~= d);
        if n < 32 {
            lemma_bv_shift(v, x, w, (n - 1) as u32);
        }
    }
}

/// The parent the first nodes of `level` were merged into.
pub open spec fn parent_of(nodes: Seq<HuffNode>, level: Seq<usize>) -> usize {
    link_target(nodes[level[0] as int].link)
}

/// The nodes of `level` link into `next` as a step with radix `r` links them: the first
/// `r` under the digits `0..r` to one parent, each other one to a copy of its own, all
/// in `next`.
pub open spec fn linked(nodes: Seq<HuffNode>, level: Seq<usize>, next: Seq<usize>, r: nat) -> bool {
    let t = parent_of(nodes, level);
    &&& 1 <= r <= level.len()
    &&& next.len() == level.len() - r + 1
    &&& forall|p: int|
        0 <= p < level.len() ==> next.contains(link_target(#[trigger] nodes[level[p] as int].link))
    &&& forall|p: int|
        0 <= p < r ==> #[trigger] nodes[level[p] as int].link == HuffLink::Solid(p as u32, t)
    &&& forall|p: int|
        r <= p < level.len() ==> (#[trigger] nodes[level[p] as int].link) is Dotted && link_target(
            nodes[level[p] as int].link,
        ) != t
    &&& forall|p: int, q: int|
        r <= p < level.len() && r <= q < level.len() && p != q ==> link_target(
            #[trigger] nodes[level[p] as int].link,
        ) != link_target(#[trigger] nodes[level[q] as int].link)
}

/// The levels are those of merging with radix `r`: no level repeats an id, ids grow
/// from level to level, each level but the last links into the next, and the nodes of
/// the last level link nowhere.
pub open spec fn shaped(nodes: Seq<HuffNode>, levels: Seq<Seq<usize>>, r: nat) -> bool {
    &&& levels.len() >= 1
    &&& forall|l: int, k: int|
        0 <= l < levels.len() && 0 <= k < levels[l].len() ==> (#[trigger] levels[l][k]) < nodes.len()
    &&& forall|l: int| 0 <= l < levels.len() ==> (#[trigger] levels[l]).no_duplicates()
    &&& forall|l1: int, l2: int, i: int, j: int|
        0 <= l1 < l2 < levels.len() && 0 <= i < levels[l1].len() && 0 <= j < levels[l2].len()
            ==> #[trigger] levels[l1][i] < #[trigger] levels[l2][j]
    &&& forall|l: int|
        #![trigger levels[l]]
        0 <= l < levels.len() - 1 ==> linked(nodes, levels[l], levels[l + 1], r)
    &&& forall|k: int|
        0 <= k < levels.last().len() ==> (#[trigger] nodes[levels.last()[k] as int]).link is Nil
}

proof fn lemma_relink_at(nodes: Seq<HuffNode>, level: Seq<usize>, r: nat, p: nat)
    requires
        p <= level.len(),
        level.no_duplicates(),
        forall|k: int| 0 <= k < level.len() ==> (#[trigger] level[k]) < nodes.len(),
    ensures
        relink(nodes, level, r, p).len() == nodes.len(),
        forall|k: int|
            0 <= k < p ==> (#[trigger] relink(nodes, level, r, p)[level[k] as int]).link == link_at(
                r,
                nodes.len(),
                k as nat,
            ),
        forall|i: int|
            0 <= i < nodes.len() && (forall|k: int| 0 <= k < p ==> level[k] != i) ==> #[trigger] relink(
                nodes,
                level,
                r,
                p,
            )[i] == nodes[i],
    decreases p,
{
    lemma_relink(nodes, level, r, p);
    if p > 0 {
        lemma_relink_at(nodes, level, r, (p - 1) as nat);
        let prev = relink(nodes, level, r, (p - 1) as nat);
        let cur = relink(nodes, level, r, p);
        assert forall|k: int| 0 <= k < p implies (#[trigger] cur[level[k] as int]).link == link_at(
            r,
            nodes.len(),
            k as nat,
        ) by {
            if k < p - 1 {
                assert(level[k] != level[p - 1]);
                assert(cur[level[k] as int] == prev[level[k] as int]);
            }
        }
        assert forall|i: int|
            0 <= i < nodes.len() && (forall|k: int| 0 <= k < p ==> level[k] != i) implies #[trigger] cur[i]
            == nodes[i] by {
            assert(level[p - 1] != i);
            assert(cur[i] == prev[i]);
        }
    }
}

/// One step, with the new level sorted, keeps the shape of the levels.
proof fn lemma_step_shaped(nodes: Seq<HuffNode>, levels: Seq<Seq<usize>>, r: nat)
    requires
        shaped(nodes, levels, r),
        r >= 1,
        levels.last().len() >= r,
        nodes.len() + 1 + levels.last().len() - r <= usize::MAX,
    ensures
        shaped(
            step_nodes(nodes, levels.last(), r),
            sort_last(
                step_nodes(nodes, levels.last(), r),
                step_levels(nodes, levels, r),
            ),
            r,
        ),
        step_nodes(nodes, levels.last(), r).len() == nodes.len() + 1 + levels.last().len() - r,
{
    let top = levels.len() - 1;
    let lv = levels.last();
    let base = nodes.len();
    let m = (lv.len() - r + 1) as nat;
    let run = id_run(base, m);
    let n2 = step_nodes(nodes, lv, r);
    let rl = relink(nodes, lv, r, lv.len());
    let srt = sort_ids(n2, run);
    let l2 = sort_last(n2, step_levels(nodes, levels, r));
    assert(lv == levels[top]);
    assert(lv.no_duplicates());
    lemma_relink_at(nodes, lv, r, lv.len());
    assert(run.no_duplicates());
    lemma_sort_ids(n2, run);
    assert(l2 =~= levels.push(srt));
    assert forall|i: int| 0 <= i < base implies #[trigger] n2[i] == rl[i] by {}
    assert forall|j: int| 0 <= j < srt.len() implies base <= #[trigger] srt[j] < base + m by {
        assert(run.contains(srt[j]));
    }
    // Nodes of the lower levels are not in the last level, so the step leaves them be.
    assert forall|l: int, k: int| 0 <= l < top && 0 <= k < levels[l].len() implies #[trigger] n2[levels[l][k] as int]
        == nodes[levels[l][k] as int] by {
        let x = levels[l][k];
        assert forall|q: int| 0 <= q < lv.len() implies lv[q] != x by {
            assert(levels[l][k] < levels[top][q]);
        }
    }
    assert forall|l: int, k: int| 0 <= l < l2.len() && 0 <= k < l2[l].len() implies (#[trigger] l2[l][k])
        < n2.len() by {
        if l < levels.len() {
            assert(l2[l] == levels[l]);
        }
    }
    assert forall|l: int| 0 <= l < l2.len() implies (#[trigger] l2[l]).no_duplicates() by {
        if l < levels.len() {
            assert(l2[l] == levels[l]);
        }
    }
    assert forall|l1: int, l3: int, i: int, j: int|
        0 <= l1 < l3 < l2.len() && 0 <= i < l2[l1].len() && 0 <= j < l2[l3].len() implies #[trigger] l2[l1][i]
        < #[trigger] l2[l3][j] by {
        assert(l2[l1] == levels[l1]);
        if l3 < levels.len() {
            assert(l2[l3] == levels[l3]);
        } else {
            assert(levels[l1][i] < base);
        }
    }
    assert forall|l: int| #![trigger l2[l]] 0 <= l < l2.len() - 1 implies linked(n2, l2[l], l2[l + 1], r) by {
        if l < top {
            assert(l2[l] == levels[l]);
            assert(l2[l + 1] == levels[l + 1]);
            assert(linked(nodes, levels[l], levels[l + 1], r));
            let lvl = levels[l];
            assert forall|p: int| 0 <= p < lvl.len() implies #[trigger] n2[lvl[p] as int] == nodes[lvl[p] as int] by {
                assert(n2[levels[l][p] as int] == nodes[levels[l][p] as int]);
            }
            assert(parent_of(n2, lvl) == parent_of(nodes, lvl)) by {
                assert(n2[lvl[0] as int] == nodes[lvl[0] as int]);
            }
        } else {
            assert(l2[l] == lv);
            assert(l2[l + 1] == srt);
            assert(n2[lv[0] as int] == rl[lv[0] as int]);
            assert(parent_of(n2, lv) == base);
            assert forall|p: int| 0 <= p < lv.len() implies srt.contains(link_target(#[trigger] n2[lv[p] as int].link)) by {
                assert(n2[lv[p] as int] == rl[lv[p] as int]);
                let j = if p < r { 0 } else { p - r + 1 };
                assert(run[j] == link_target(n2[lv[p] as int].link));
                assert(run.contains(run[j]));
            }
            assert forall|p: int| 0 <= p < r implies #[trigger] n2[lv[p] as int].link == HuffLink::Solid(p as u32, base as usize) by {
                assert(n2[lv[p] as int] == rl[lv[p] as int]);
            }
            assert forall|p: int| r <= p < lv.len() implies (#[trigger] n2[lv[p] as int].link) is Dotted && link_target(
                n2[lv[p] as int].link) != base by {
                assert(n2[lv[p] as int] == rl[lv[p] as int]);
            }
            assert forall|p: int, q: int| r <= p < lv.len() && r <= q < lv.len() && p != q implies link_target(
                #[trigger] n2[lv[p] as int].link) != link_target(#[trigger] n2[lv[q] as int].link) by {
                assert(n2[lv[p] as int] == rl[lv[p] as int]);
                assert(n2[lv[q] as int] == rl[lv[q] as int]);
            }
        }
    }
    assert forall|k: int| 0 <= k < l2.last().len() implies (#[trigger] n2[l2.last()[k] as int]).link is Nil by {
        assert(l2.last() == srt);
        assert(srt[k] >= base);
    }
}

proof fn lemma_build_grows(nodes: Seq<HuffNode>, levels: Seq<Seq<usize>>, r: nat)
    ensures
        build(nodes, levels, r).0.len() >= nodes.len(),
    decreases levels.last().len(),
{
    if r >= 2 && levels.len() >= 1 && levels.last().len() >= r {
        let n2 = step_nodes(nodes, levels.last(), r);
        let run = id_run(nodes.len(), (levels.last().len() - r + 1) as nat);
        lemma_sort_ids(n2, run);
        assert(n2.len() >= nodes.len()) by {
            lemma_relink_len(nodes, levels.last(), r, levels.last().len());
        }
        lemma_build_grows(n2, sort_last(n2, step_levels(nodes, levels, r)), r);
    }
}

proof fn lemma_relink_len(nodes: Seq<HuffNode>, level: Seq<usize>, r: nat, p: nat)
    ensures
        relink(nodes, level, r, p).len() == nodes.len(),
    decreases p,
{
    if p > 0 {
        lemma_relink_len(nodes, level, r, (p - 1) as nat);
    }
}

/// Building keeps the shape of the levels and stops with fewer than `r` nodes in the
/// last level.
proof fn lemma_build_shaped(nodes: Seq<HuffNode>, levels: Seq<Seq<usize>>, r: nat)
    requires
        shaped(nodes, levels, r),
        r >= 2,
        build(nodes, levels, r).0.len() <= usize::MAX,
    ensures
        shaped(build(nodes, levels, r).0, build(nodes, levels, r).1, r),
        build(nodes, levels, r).1.last().len() < r,
    decreases levels.last().len(),
{
    if levels.last().len() >= r {
        let n2 = step_nodes(nodes, levels.last(), r);
        let l2 = sort_last(n2, step_levels(nodes, levels, r));
        let run = id_run(nodes.len(), (levels.last().len() - r + 1) as nat);
        lemma_sort_ids(n2, run);
        lemma_build_grows(n2, l2, r);
        lemma_relink_len(nodes, levels.last(), r, levels.last().len());
        lemma_step_shaped(nodes, levels, r);
        lemma_build_shaped(n2, l2, r);
    }
}

proof fn lemma_prefix_push(a: Seq<u32>, b: Seq<u32>, d: u32)
    ensures
        is_prefix(a.push(d), b) ==> is_prefix(a, b),
        is_prefix(b, a.push(d)) && !is_prefix(b, a) ==> is_prefix(a, b),
{
    if is_prefix(a.push(d), b) {
        assert(b.take(a.len() as int) =~= a.push(d).take(a.len() as int));
        assert(a.push(d).take(a.len() as int) =~= a);
    }
    if is_prefix(b, a.push(d)) && !is_prefix(b, a) {
        if b.len() <= a.len() {
            assert(a.take(b.len() as int) =~= a.push(d).take(b.len() as int));
        }
        assert(b =~= a.push(d));
        assert(b.take(a.len() as int) =~= a);
    }
}

proof fn lemma_prefix_digits(a: Seq<u32>, d: u32, e: u32)
    requires
        d != e,
    ensures
        !is_prefix(a.push(d), a.push(e)),
{
    if is_prefix(a.push(d), a.push(e)) {
        assert(a.push(e).take(a.len() + 1 as int) =~= a.push(e));
        assert(a.push(d)[a.len() as int] == d);
    }
}

/// With radix 2 and at most one node left on top, the codes of the nodes of a level
/// are made of 0s and 1s, not empty below the top, and none is a prefix of another.
proof fn lemma_level_codes(nodes: Seq<HuffNode>, levels: Seq<Seq<usize>>, l: nat)
    requires
        shaped(nodes, levels, 2),
        levels.last().len() <= 1,
        l < levels.len(),
    ensures
        forall|x: usize, y: usize|
            levels[l as int].contains(x) && levels[l as int].contains(y) && x != y ==> !is_prefix(
                #[trigger] code_digits(nodes, levels, l, x),
                #[trigger] code_digits(nodes, levels, l, y),
            ),
        forall|x: usize|
            #![trigger code_digits(nodes, levels, l, x)]
            levels[l as int].contains(x) ==> (l < levels.len() - 1 ==> code_digits(nodes, levels, l, x).len() >= 1)
                && forall|k: int|
                0 <= k < code_digits(nodes, levels, l, x).len() ==> #[trigger] code_digits(nodes, levels, l, x)[k] <= 1,
    decreases levels.len() - l,
{
    let lv = levels[l as int];
    if l == levels.len() - 1 {
        assert forall|x: usize| lv.contains(x) implies code_digits(nodes, levels, l, x) == Seq::<u32>::empty() by {
            let k = choose|k: int| 0 <= k < lv.len() && lv[k] == x;
            assert(nodes[levels.last()[k] as int].link is Nil);
        }
        assert forall|x: usize, y: usize| lv.contains(x) && lv.contains(y) implies x == y by {
            let i = choose|i: int| 0 <= i < lv.len() && lv[i] == x;
            let j = choose|j: int| 0 <= j < lv.len() && lv[j] == y;
        }
    } else {
        lemma_level_codes(nodes, levels, l + 1);
        let nx = levels[l + 1 as int];
        assert(linked(nodes, lv, nx, 2));
        let t = parent_of(nodes, lv);
        assert(nx.contains(t)) by {
            assert(nx.contains(link_target(nodes[lv[0] as int].link)));
        }
        let ct = code_digits(nodes, levels, l + 1, t);
        assert forall|x: usize|
            #![trigger code_digits(nodes, levels, l, x)]
            lv.contains(x) implies (l < levels.len() - 1 ==> code_digits(nodes, levels, l, x).len() >= 1)
                && forall|k: int|
                0 <= k < code_digits(nodes, levels, l, x).len() ==> #[trigger] code_digits(nodes, levels, l, x)[k] <= 1 by {
            let p = choose|p: int| 0 <= p < lv.len() && lv[p] == x;
            let u = link_target(nodes[lv[p] as int].link);
            assert(nx.contains(u));
            let cu = code_digits(nodes, levels, l + 1, u);
            assert(forall|k: int| 0 <= k < cu.len() ==> #[trigger] cu[k] <= 1);
            if p < 2 {
                assert(nodes[lv[p] as int].link == HuffLink::Solid(p as u32, t));
                assert(code_digits(nodes, levels, l, x) == ct.push(p as u32));
            } else {
                assert(code_digits(nodes, levels, l, x) == cu);
                if l + 1 == levels.len() - 1 {
                    assert(false);
                }
            }
        }
        assert forall|x: usize, y: usize|
            lv.contains(x) && lv.contains(y) && x != y implies !is_prefix(
            #[trigger] code_digits(nodes, levels, l, x),
            #[trigger] code_digits(nodes, levels, l, y),
        ) by {
            let p = choose|p: int| 0 <= p < lv.len() && lv[p] == x;
            let q = choose|q: int| 0 <= q < lv.len() && lv[q] == y;
            let u = link_target(nodes[lv[p] as int].link);
            let v = link_target(nodes[lv[q] as int].link);
            assert(nx.contains(u));
            assert(nx.contains(v));
            let cu = code_digits(nodes, levels, l + 1, u);
            let cv = code_digits(nodes, levels, l + 1, v);
            if p < 2 && q < 2 {
                assert(nodes[lv[p] as int].link == HuffLink::Solid(p as u32, t));
                assert(nodes[lv[q] as int].link == HuffLink::Solid(q as u32, t));
                lemma_prefix_digits(ct, p as u32, q as u32);
            } else if p < 2 {
                assert(nodes[lv[p] as int].link == HuffLink::Solid(p as u32, t));
                assert(v != t);
                lemma_prefix_push(ct, cv, p as u32);
            } else if q < 2 {
                assert(nodes[lv[q] as int].link == HuffLink::Solid(q as u32, t));
                assert(u != t);
                lemma_prefix_push(ct, cu, q as u32);
            } else {
                assert(u != v);
            }
        }
    }
}

proof fn lemma_build_level0(nodes: Seq<HuffNode>, levels: Seq<Seq<usize>>, r: nat)
    requires
        levels.len() >= 1,
    ensures
        build(nodes, levels, r).1.len() >= 1,
        build(nodes, levels, r).1[0] == levels[0],
    decreases levels.last().len(),
{
    if r >= 2 && levels.last().len() >= r {
        let n2 = step_nodes(nodes, levels.last(), r);
        let l2 = sort_last(n2, step_levels(nodes, levels, r));
        let run = id_run(nodes.len(), (levels.last().len() - r + 1) as nat);
        lemma_sort_ids(n2, run);
        assert(l2[0] == levels[0]);
        lemma_build_level0(n2, l2, r);
    }
}

proof fn lemma_code_table<T>(
    nodes: Seq<HuffNode>,
    levels: Seq<Seq<usize>>,
    syms: Seq<(T, u64)>,
    n: nat,
)
    requires
        n <= syms.len(),
    ensures
        forall|k: T|
            #[trigger] code_table(nodes, levels, syms, n).contains_key(k) ==> exists|i: int|
                0 <= i < n && syms[i].0 == k && code_table(nodes, levels, syms, n)[k] == code_entry(
                    #[trigger] leaf_code(nodes, levels, i),
                ),
        forall|i: int| 0 <= i < n ==> code_table(nodes, levels, syms, n).contains_key(#[trigger] syms[i].0),
    decreases n,
{
    if n > 0 {
        lemma_code_table(nodes, levels, syms, (n - 1) as nat);
        let t = code_table(nodes, levels, syms, n);
        assert forall|k: T| #[trigger] t.contains_key(k) implies exists|i: int|
            0 <= i < n && syms[i].0 == k && t[k] == code_entry(#[trigger] leaf_code(nodes, levels, i)) by {
            if k != syms[n - 1].0 {
                assert(code_table(nodes, levels, syms, (n - 1) as nat).contains_key(k));
            } else {
                assert(t[k] == code_entry(leaf_code(nodes, levels, n - 1)));
            }
        }
    }
}

proof fn lemma_insert_symbol_contains<T>(s: Seq<(T, u64)>, x: (T, u64))
    ensures
        forall|y: (T, u64)|
            #![trigger insert_symbol(s, x).contains(y)]
            #![trigger s.contains(y)]
            insert_symbol(s, x).contains(y) <==> (s.contains(y) || y == x),
    decreases s.len(),
{
    let r = insert_symbol(s, x);
    if s.len() == 0 || s.last().1 <= x.1 {
        assert(r == s.push(x));
    } else {
        lemma_insert_symbol_contains(s.drop_last(), x);
        let q = insert_symbol(s.drop_last(), x);
        assert(r == q.push(s.last()));
    }
    assert forall|y: (T, u64)| r.contains(y) <==> (s.contains(y) || y == x) by {
        if s.len() == 0 || s.last().1 <= x.1 {
            if r.contains(y) {
                let k = choose|k: int| 0 <= k < r.len() && r[k] == y;
                if k < s.len() {
                    assert(s[k] == y);
                }
            }
            if s.contains(y) {
                let k = choose|k: int| 0 <= k < s.len() && s[k] == y;
                assert(r[k] == y);
            }
            if y == x {
                assert(r[s.len() as int] == y);
            }
        } else {
            let p = s.drop_last();
            let q = insert_symbol(p, x);
            if r.contains(y) {
                let k = choose|k: int| 0 <= k < r.len() && r[k] == y;
                if k < q.len() {
                    assert(q[k] == y);
                    assert(q.contains(y));
                    if p.contains(y) {
                        let m = choose|m: int| 0 <= m < p.len() && p[m] == y;
                        assert(s[m] == y);
                    }
                } else {
                    assert(s[s.len() - 1] == y);
                }
            }
            if s.contains(y) {
                let k = choose|k: int| 0 <= k < s.len() && s[k] == y;
                if k < s.len() - 1 {
                    assert(p[k] == y);
                    assert(q.contains(y));
                    let m = choose|m: int| 0 <= m < q.len() && q[m] == y;
                    assert(r[m] == y);
                } else {
                    assert(r[r.len() - 1] == y);
                }
            }
            if y == x {
                assert(q.contains(x));
                let m = choose|m: int| 0 <= m < q.len() && q[m] == x;
                assert(r[m] == x);
            }
        }
    }
}

/// Sorting the pairs keeps them all, and brings no other.
pub proof fn lemma_sort_symbols_contains<T>(s: Seq<(T, u64)>)
    ensures
        forall|y: (T, u64)|
            #![trigger sort_symbols(s).contains(y)]
            #![trigger s.contains(y)]
            sort_symbols(s).contains(y) <==> s.contains(y),
    decreases s.len(),
{
    if s.len() > 0 {
        let p = s.drop_last();
        lemma_sort_symbols_contains(p);
        lemma_insert_symbol_contains(sort_symbols(p), s.last());
        assert forall|y: (T, u64)| s.contains(y) <==> (p.contains(y) || y == s.last()) by {
            if s.contains(y) {
                let k = choose|k: int| 0 <= k < s.len() && s[k] == y;
                if k < s.len() - 1 {
                    assert(p[k] == y);
                }
            }
            if p.contains(y) {
                let k = choose|k: int| 0 <= k < p.len() && p[k] == y;
                assert(s[k] == y);
            }
            if y == s.last() {
                assert(s[s.len() - 1] == y);
            }
        }
    }
}

proof fn lemma_fresh_shaped<T>(syms: Seq<(T, u64)>)
    requires
        encoded(initial_state(syms), 2).0.len() <= usize::MAX,
    ensures
        shaped(encoded(initial_state(syms), 2).0, encoded(initial_state(syms), 2).1, 2),
        encoded(initial_state(syms), 2).1.last().len() <= 1,
        encoded(initial_state(syms), 2).1[0].len() == syms.len(),
        encoded(initial_state(syms), 2).2.len() == syms.len(),
{
    let st = initial_state(syms);
    let lv0 = sort_last(st.0, st.1);
    lemma_build_grows(st.0, lv0, 2);
    let ids = st.1[0];
    assert(ids.no_duplicates());
    lemma_sort_ids(st.0, ids);
    assert(lv0 =~= seq![sort_ids(st.0, ids)]);
    assert(shaped(st.0, lv0, 2)) by {
        assert forall|k: int| 0 <= k < lv0[0].len() implies (#[trigger] lv0[0][k]) < st.0.len() by {
            assert(ids.contains(lv0[0][k]));
        }
    }
    lemma_build_shaped(st.0, lv0, 2);
    lemma_build_level0(st.0, lv0, 2);
    lemma_sort_symbols_len(syms);
}

proof fn lemma_leaf_entry(nodes: Seq<HuffNode>, levels: Seq<Seq<usize>>, i: int)
    requires
        shaped(nodes, levels, 2),
        levels.last().len() <= 1,
        0 <= i < levels[0].len(),
        leaf_code(nodes, levels, i).len() <= 32,
    ensures
        code_fits(leaf_code(nodes, levels, i)),
        levels.len() > 1 ==> leaf_code(nodes, levels, i).len() >= 1,
        1 <= code_entry(leaf_code(nodes, levels, i)).1 <= 32,
        fits_in(code_entry(leaf_code(nodes, levels, i)).0, code_entry(leaf_code(nodes, levels, i)).1),
        leaf_code(nodes, levels, i).len() >= 1 ==> bit_seq(
            code_entry(leaf_code(nodes, levels, i)).0,
            code_entry(leaf_code(nodes, levels, i)).1 as nat,
        ) == leaf_code(nodes, levels, i),
{
    let c = leaf_code(nodes, levels, i);
    lemma_level_codes(nodes, levels, 0);
    assert(levels[0].contains(levels[0][i]));
    lemma_digits_bits(c);
    if c.len() == 0 {
        assert(0u32 >> 1u32 == 0u32) by (bit_vector);
    }
}

/// Radix-2 codes of a fresh encoder: when every symbol's code has at most 32 digits, all
/// codes fit, the table has exactly the symbols as keys, and any table whose bit strings
/// are these codes is well formed and prefix free (so what it compresses decodes back).
pub proof fn lemma_encoded_table<T>(syms: Seq<(T, u64)>, m: Map<T, BitString>)
    requires
        encoded(initial_state(syms), 2).0.len() <= usize::MAX,
        forall|i: int|
            0 <= i < syms.len() ==> (#[trigger] leaf_code(
                encoded(initial_state(syms), 2).0,
                encoded(initial_state(syms), 2).1,
                i,
            )).len() <= 32,
        bit_views(m) == table_of(encoded(initial_state(syms), 2)),
    ensures
        all_codes_fit(encoded(initial_state(syms), 2)),
        forall|k: T| #[trigger] m.contains_key(k) <==> exists|i: int| 0 <= i < syms.len() && syms[i].0 == k,
        prefix_free(m),
        codes_well_formed(m),
{
    let e = encoded(initial_state(syms), 2);
    let n = syms.len();
    let tb = table_of(e);
    lemma_fresh_shaped(syms);
    lemma_sort_symbols_contains(syms);
    lemma_code_table(e.0, e.1, e.2, e.2.len());
    let l0 = e.1[0];
    assert forall|i: int| 0 <= i < n implies #[trigger] code_fits(leaf_code(e.0, e.1, i)) by {
        lemma_leaf_entry(e.0, e.1, i);
    }
    assert forall|k: T| #[trigger] m.contains_key(k) <==> exists|i: int| 0 <= i < n && syms[i].0 == k by {
        assert(m.contains_key(k) <==> tb.contains_key(k));
        if tb.contains_key(k) {
            let i = choose|i: int|
                0 <= i < n && e.2[i].0 == k && tb[k] == code_entry(#[trigger] leaf_code(e.0, e.1, i));
            assert(e.2.contains(e.2[i]));
            let j = choose|j: int| 0 <= j < n && syms[j] == e.2[i];
            assert(syms[j].0 == k);
        }
        if exists|i: int| 0 <= i < n && syms[i].0 == k {
            let i = choose|i: int| 0 <= i < n && syms[i].0 == k;
            assert(syms.contains(syms[i]));
            let j = choose|j: int| 0 <= j < n && e.2[j] == syms[i];
            assert(tb.contains_key(e.2[j].0));
        }
    }
    assert forall|k: T| #[trigger] m.contains_key(k) implies 1 <= m[k]@.1 <= 32 && fits_in(
        m[k]@.0,
        m[k]@.1,
    ) by {
        assert(tb.contains_key(k));
        assert(bit_views(m)[k] == m[k]@);
        let i = choose|i: int|
            0 <= i < n && e.2[i].0 == k && tb[k] == code_entry(#[trigger] leaf_code(e.0, e.1, i));
        lemma_leaf_entry(e.0, e.1, i);
    }
    assert forall|a: T, b: T|
        #![trigger m[a], m[b]]
        m.contains_key(a) && m.contains_key(b) && a != b implies !is_prefix(
        code_bits(m[a]),
        code_bits(m[b]),
    ) by {
        assert(tb.contains_key(a));
        assert(tb.contains_key(b));
        assert(bit_views(m)[a] == m[a]@);
        assert(bit_views(m)[b] == m[b]@);
        let i = choose|i: int|
            0 <= i < n && e.2[i].0 == a && tb[a] == code_entry(#[trigger] leaf_code(e.0, e.1, i));
        let j = choose|j: int|
            0 <= j < n && e.2[j].0 == b && tb[b] == code_entry(#[trigger] leaf_code(e.0, e.1, j));
        assert(i != j);
        assert(l0[i] != l0[j]);
        lemma_leaf_entry(e.0, e.1, i);
        lemma_leaf_entry(e.0, e.1, j);
        if e.1.len() == 1 {
            assert(false);
        }
        lemma_level_codes(e.0, e.1, 0);
        assert(l0.contains(l0[i]));
        assert(l0.contains(l0[j]));
        assert(code_bits(m[a]) == leaf_code(e.0, e.1, i));
        assert(code_bits(m[b]) == leaf_code(e.0, e.1, j));
    }
}

/// Round trip through a fresh radix-2 encoder: compressing symbols with its table and
/// decoding the bits with the decoder of that table gives the symbols back, when no code
/// is longer than 32 digits and the last word of the bits is not exactly full.
pub proof fn lemma_huffman_roundtrip<T: Hash + Clone + Eq>(
    syms: Seq<(T, u64)>,
    comp: Compressor<T>,
    dec: Decoder<T>,
    xs: Seq<T>,
    compressed: BitVec,
)
    requires
        encoded(initial_state(syms), 2).0.len() <= usize::MAX,
        forall|i: int|
            0 <= i < syms.len() ==> (#[trigger] leaf_code(
                encoded(initial_state(syms), 2).0,
                encoded(initial_state(syms), 2).1,
                i,
            )).len() <= 32,
        bit_views(comp@) == table_of(encoded(initial_state(syms), 2)),
        trie_of_table(dec.trie(), comp@),
        forall|j: int| 0 <= j < xs.len() ==> comp@.contains_key(#[trigger] xs[j]),
        compressed@ == pushed_all((Seq::<u32>::empty(), 0u32), code_pieces(comp@, xs)),
        stored_bits(compressed@) == strings_bits(code_pieces(comp@, xs)),
        compressed@.0.len() == 0 || compressed@.1 != 0,
    ensures
        decode_from(dec.trie(), yielded_bits(compressed@), 0) == xs,
{
    lemma_encoded_table(syms, comp@);
    lemma_compress_decode_roundtrip(comp, dec, xs, compressed);
}

impl HuffNode {
    /// A node of weight `prob`, linked nowhere yet.
    pub fn new(prob: u64) -> (r: HuffNode)
        ensures
            r.value == prob,
            r.link is Nil,
    {
        HuffNode { value: prob, link: HuffLink::Nil }
    }
}

/// Whether a step was made.
enum Proc {
    Cont,
    Stop,
}

/// Builds a code table by merging the lightest nodes, level after level.
#[derive(Debug)]
pub struct HuffmanEncoder<T: Hash + Clone + Eq> {
    nodes: Vec<HuffNode>,
    huff_struct: Vec<Vec<usize>>,
    symbols: Vec<(T, u64)>,
}

impl<T: Hash + Clone + Eq> View for HuffmanEncoder<T> {
    type V = (Seq<HuffNode>, Seq<Seq<usize>>, Seq<(T, u64)>);

    /// The nodes, the levels of node ids, and the symbols with their weights.
    closed spec fn view(&self) -> Self::V {
        (self.nodes@, levels_view(self.huff_struct@), self.symbols@)
    }
}

impl<T: Hash + Clone + Eq> HuffmanEncoder<T> {
    /// The ids and links are in range.
    pub open spec fn wf(&self) -> bool {
        state_wf(self@.0, self@.1, self@.2)
    }

    /// An encoder for the symbols and weights of `symbols`, one leaf each.
    pub fn new(symbols: &[(T, u64)]) -> (r: HuffmanEncoder<T>)
        requires
            clone_is_exact::<T>(),
        ensures
            r@ == initial_state(symbols@),
            r.wf(),
    {
        let mut nodes: Vec<HuffNode> = Vec::new();
        let mut level: Vec<usize> = Vec::new();
        let mut syms: Vec<(T, u64)> = Vec::new();
        let ghost init = initial_state(symbols@);
        let mut i: usize = 0;
        while i < symbols.len()
            invariant
                i <= symbols@.len(),
                init == initial_state(symbols@),
                clone_is_exact::<T>(),
                nodes@ == init.0.take(i as int),
                level@ == init.1[0].take(i as int),
                syms@ == symbols@.take(i as int),
            decreases symbols@.len() - i,
        {
            nodes.push(HuffNode::new(symbols[i].1));
            level.push(i);
            let key = symbols[i].0.clone();
            syms.push((key, symbols[i].1));
            proof {
                assert(nodes@ =~= init.0.take(i + 1));
                assert(level@ =~= init.1[0].take(i + 1));
                assert(syms@ =~= symbols@.take(i + 1));
            }
            i = i + 1;
        }
        proof {
            assert(level@ =~= init.1[0]);
        }
        let mut hs: Vec<Vec<usize>> = Vec::new();
        hs.push(level);
        let r = HuffmanEncoder { nodes, huff_struct: hs, symbols: syms };
        proof {
            assert(nodes@ =~= init.0);
            assert(syms@ =~= symbols@);
            assert(levels_view(r.huff_struct@)[0] == r.huff_struct@[0]@);
            assert(levels_view(r.huff_struct@) =~= init.1);
        }
        r
    }

    /// An encoder for the symbols and weights of `map`, one leaf each, in the order the
    /// map hands them out.
    pub fn from(map: HashMap<T, u64>) -> (r: HuffmanEncoder<T>)
        requires
            obeys_key_model::<T>(),
            clone_is_exact::<T>(),
        ensures
            r.wf(),
            r@ == initial_state(r@.2),
            lists_map(r@.2, map@),
    {
        let mut v: Vec<(T, u64)> = Vec::new();
        for kv in it: map.iter()
            invariant
                obeys_key_model::<T>(),
                clone_is_exact::<T>(),
                v@ == entries_of(it.seq().take(it.index())),
                it.index() == it.seq().len() ==> lists_map(v@, map@),
        {
            let (key, val) = kv;
            let k = key.clone();
            v.push((k, *val));
            assert(v@ =~= entries_of(it.seq().take(it.index() + 1)));
            assert(it.index() + 1 == it.seq().len() ==> lists_map(v@, map@)) by {
                lemma_listing(it.seq(), map@, it.index() + 1);
            }
        }
        proof {
            if map@.dom().len() == 0 {
                assert(v@.len() == 0);
            }
        }
        HuffmanEncoder::new(v.as_slice())
    }

    /// Whether the last level has at least `radix` nodes to merge.
    fn check(&self, radix: u32) -> (r: Proc)
        requires
            self.wf(),
        ensures
            r is Cont <==> self@.1.last().len() >= radix,
    {
        let n = self.huff_struct.len();
        if self.huff_struct[n - 1].len() >= radix as usize {
            Proc::Cont
        } else {
            Proc::Stop
        }
    }

    /// Merges the first `radix` nodes of the last level into a new level, if there are
    /// that many.
    fn single_step(&mut self, radix: u32) -> (r: Proc)
        requires
            old(self).wf(),
        ensures
            final(self).wf(),
            r is Cont <==> old(self)@.1.last().len() >= radix,
            r is Cont ==> final(self)@ == (
                step_nodes(old(self)@.0, old(self)@.1.last(), radix as nat),
                step_levels(old(self)@.0, old(self)@.1, radix as nat),
                old(self)@.2,
            ),
            r is Stop ==> final(self)@ == old(self)@,
    {
        let index = self.huff_struct.len() - 1;
        if let Proc::Stop = self.check(radix) {
            return Proc::Stop;
        }
        let ghost nodes0 = self@.0;
        let ghost lv = self@.1;
        let ghost syms0 = self@.2;
        let ghost level = lv[index as int];
        let ghost rr = radix as nat;
        let r = radix as usize;
        let len = self.huff_struct[index].len();
        let base = self.nodes.len();
        let mut sum: u64 = 0;
        let mut p: usize = 0;
        assert(self.huff_struct@[index as int]@ == level);
        while p < r
            invariant
                state_wf(nodes0, lv, self@.2),
                self@.1 == lv,
                self@.2 == syms0,
                index == lv.len() - 1,
                level == lv[index as int],
                len == level.len(),
                r == rr,
                rr <= level.len(),
                p <= r,
                base == nodes0.len(),
                self.nodes@ == relink(nodes0, level, rr, p as nat),
                sum == weight_sum(nodes0, level, p as nat),
            decreases r - p,
        {
            proof {
                lemma_relink(nodes0, level, rr, p as nat);
                assert(self.huff_struct@[index as int]@ == level);
                assert(level[p as int] < nodes0.len());
            }
            let id = self.huff_struct[index][p];
            let v = self.nodes[id].value;
            self.nodes.set(id, HuffNode { value: v, link: HuffLink::Solid(p as u32, base) });
            sum = sum.saturating_add(v);
            p = p + 1;
        }
        let ghost sum_node = HuffNode { value: weight_sum(nodes0, level, rr), link: HuffLink::Nil };
        self.nodes.push(HuffNode { value: sum, link: HuffLink::Nil });
        let mut new_vec: Vec<usize> = Vec::new();
        new_vec.push(base);
        proof {
            assert(self.nodes@ =~= relink(nodes0, level, rr, p as nat) + seq![sum_node] + copies(
                nodes0,
                level,
                rr,
                0,
            ));
            assert(new_vec@ =~= id_run(base as nat, 1));
        }
        while p < len
            invariant
                state_wf(nodes0, lv, self@.2),
                self@.1 == lv,
                self@.2 == syms0,
                index == lv.len() - 1,
                level == lv[index as int],
                len == level.len(),
                r == rr,
                rr <= p <= len,
                base == nodes0.len(),
                sum_node == (HuffNode { value: weight_sum(nodes0, level, rr), link: HuffLink::Nil }),
                self.nodes@ == relink(nodes0, level, rr, p as nat) + seq![sum_node] + copies(
                    nodes0,
                    level,
                    rr,
                    (p - rr) as nat,
                ),
                new_vec@ == id_run(base as nat, (p - rr + 1) as nat),
            decreases len - p,
        {
            proof {
                lemma_relink(nodes0, level, rr, p as nat);
                assert(self.huff_struct@[index as int]@ == level);
                assert(level[p as int] < nodes0.len());
            }
            let id = self.huff_struct[index][p];
            let v = self.nodes[id].value;
            let copy = self.nodes.len();
            self.nodes.push(HuffNode::new(v));
            self.nodes.set(id, HuffNode { value: v, link: HuffLink::Dotted(copy) });
            new_vec.push(copy);
            proof {
                assert(self.nodes@ =~= relink(nodes0, level, rr, (p + 1) as nat) + seq![sum_node]
                    + copies(nodes0, level, rr, (p + 1 - rr) as nat));
                assert(new_vec@ =~= id_run(base as nat, (p + 1 - rr + 1) as nat));
            }
            p = p + 1;
        }
        let ghost hs0 = self.huff_struct@;
        let total = self.nodes.len();
        self.huff_struct.push(new_vec);
        proof {
            lemma_relink(nodes0, level, rr, p as nat);
            assert(total == nodes0.len() + 1 + level.len() - rr);
            assert(levels_view(self.huff_struct@) =~= levels_view(hs0).push(new_vec@));
            assert(levels_view(self.huff_struct@) =~= step_levels(nodes0, lv, rr));
            lemma_relink_links(nodes0, level, rr, level.len());
            let n2 = self@.0;
            let l2 = self@.1;
            assert forall|l: int, k: int|
                0 <= l < l2.len() && 0 <= k < l2[l].len() implies (#[trigger] l2[l][k]) < n2.len() by {
                if l < lv.len() {
                    assert(l2[l] == lv[l]);
                }
            }
            assert forall|i: int|
                0 <= i < n2.len() && !(n2[i].link is Nil) implies link_target(#[trigger] n2[i].link)
                < n2.len() by {
                if i < nodes0.len() {
                    assert(n2[i] == relink(nodes0, level, rr, level.len())[i]);
                }
            }
        }
        Proc::Cont
    }

    /// Sorts the last level by weight.
    fn sort_last_level(&mut self)
        requires
            old(self).wf(),
        ensures
            final(self).wf(),
            final(self)@ == (old(self)@.0, sort_last(old(self)@.0, old(self)@.1), old(self)@.2),
    {
        let ghost lv = self@.1;
        let ghost hs0 = self.huff_struct@;
        let last = self.huff_struct.pop().unwrap();
        proof {
            assert(last@ == lv.last());
            assert forall|k: int| 0 <= k < last@.len() implies (#[trigger] last@[k]) < self.nodes@.len() by {
                assert(lv[lv.len() - 1][k] == last@[k]);
            }
        }
        let sorted = sort_level(&last, &self.nodes);
        let ghost hs1 = self.huff_struct@;
        self.huff_struct.push(sorted);
        proof {
            lemma_sort_ids(self@.0, lv.last());
            assert(hs1 =~= hs0.drop_last());
            assert(levels_view(self.huff_struct@) =~= sort_last(self@.0, lv));
            let l2 = self@.1;
            assert forall|l: int, k: int|
                0 <= l < l2.len() && 0 <= k < l2[l].len() implies (#[trigger] l2[l][k])
                < self@.0.len() by {
                if l < lv.len() - 1 {
                    assert(l2[l] == lv[l]);
                } else {
                    assert(sort_ids(self@.0, lv.last()).contains(l2[l][k]));
                    let m = choose|m: int| 0 <= m < lv.last().len() && lv.last()[m] == l2[l][k];
                    assert(lv[lv.len() - 1][m] == l2[l][k]);
                }
            }
        }
    }

    /// Sorts the symbols and the last level by weight.
    fn start(&mut self)
        requires
            old(self).wf(),
        ensures
            final(self).wf(),
            final(self)@ == (
                old(self)@.0,
                sort_last(old(self)@.0, old(self)@.1),
                sort_symbols(old(self)@.2),
            ),
    {
        let mut src: Vec<(T, u64)> = Vec::new();
        std::mem::swap(&mut src, &mut self.symbols);
        let sorted = sort_symbol_vec(src);
        self.symbols = sorted;
        proof {
            lemma_sort_symbols_len(src@);
        }
        self.sort_last_level();
    }

    /// The code of node `id` of level `lvl`, as value and number of digits, if it is
    /// made of 0s and 1s and fits in a `u32`.
    fn code_of(&self, lvl: usize, id: usize) -> (r: Option<(u32, usize)>)
        requires
            self.wf(),
            id < self@.0.len(),
            lvl <= self@.1.len(),
        ensures
            match r {
                Some((v, n)) => code_fits(code_digits(self@.0, self@.1, lvl as nat, id)) && v == binval(
                    code_digits(self@.0, self@.1, lvl as nat, id),
                ) && n == code_digits(self@.0, self@.1, lvl as nat, id).len(),
                None => !code_fits(code_digits(self@.0, self@.1, lvl as nat, id)),
            },
        decreases self@.1.len() - lvl,
    {
        if lvl >= self.huff_struct.len() {
            return Some((0, 0));
        }
        proof {
            assert(self@.1.len() == self.huff_struct@.len());
        }
        match self.nodes[id].link {
            HuffLink::Nil => Some((0, 0)),
            HuffLink::Dotted(q) => self.code_of(lvl + 1, q),
            HuffLink::Solid(d, q) => {
                match self.code_of(lvl + 1, q) {
                    None => {
                        proof {
                            lemma_fits_push(code_digits(self@.0, self@.1, (lvl + 1) as nat, q), d);
                        }
                        None
                    },
                    Some((v, n)) => {
                        let ghost inner = code_digits(self@.0, self@.1, (lvl + 1) as nat, q);
                        proof {
                            lemma_fits_push(inner, d);
                            lemma_code_len(self@.0, self@.1, (lvl + 1) as nat, q);
                        }
                        let w: u64 = 2 * (v as u64) + (d as u64);
                        if d <= 1 && w <= 0xffff_ffff {
                            Some((w as u32, n + 1))
                        } else {
                            None
                        }
                    },
                }
            },
        }
    }

    /// The table of each symbol to the bit string of its leaf, if every code is made of
    /// 0s and 1s and fits in a `u32`.
    fn last_step(&self) -> (r: Option<HashMap<T, BitString>>)
        requires
            self.wf(),
            obeys_key_model::<T>(),
            clone_is_exact::<T>(),
        ensures
            r is Some <==> all_codes_fit(self@),
            r matches Some(m) ==> bit_views(m@) == table_of(self@),
    {
        let mut ret: HashMap<T, BitString> = HashMap::new();
        let n = self.symbols.len();
        let mut i: usize = 0;
        proof {
            assert(bit_views(ret@) =~= code_table(self@.0, self@.1, self@.2, 0));
        }
        while i < n
            invariant
                self.wf(),
                obeys_key_model::<T>(),
                clone_is_exact::<T>(),
                n == self@.2.len(),
                i <= n,
                bit_views(ret@) == code_table(self@.0, self@.1, self@.2, i as nat),
                forall|j: int| 0 <= j < i ==> code_fits(#[trigger] leaf_code(self@.0, self@.1, j)),
            decreases n - i,
        {
            proof {
                assert(self.huff_struct@[0]@ == self@.1[0]);
                assert(self@.1[0][i as int] < self@.0.len());
            }
            let id = self.huff_struct[0][i];
            match self.code_of(0, id) {
                None => {
                    proof {
                        assert(!code_fits(leaf_code(self@.0, self@.1, i as int)));
                    }
                    return None;
                },
                Some((v, len)) => {
                    let b = if len == 0 {
                        BitString::from(0, 1)
                    } else {
                        BitString::from(v, len as u32)
                    };
                    let key = self.symbols[i].0.clone();
                    let ghost old_ret = ret@;
                    ret.insert(key, b);
                    proof {
                        assert(bit_views(ret@) =~= bit_views(old_ret).insert(key, b@));
                    }
                },
            }
            i = i + 1;
        }
        Some(ret)
    }

    /// Builds the levels with radix `radix` and returns the table of the symbols' codes,
    /// or nothing when some code is not made of 0s and 1s or does not fit in a `u32`.
    pub fn try_encode(&mut self, radix: u32) -> (r: Option<Compressor<T>>)
        requires
            old(self).wf(),
            obeys_key_model::<T>(),
            clone_is_exact::<T>(),
            radix >= 2 || old(self)@.1.last().len() < radix,
        ensures
            final(self).wf(),
            final(self)@ == encoded(old(self)@, radix as nat),
            r is Some <==> all_codes_fit(final(self)@),
            r matches Some(c) ==> bit_views(c@) == table_of(final(self)@),
    {
        let ghost target = encoded(old(self)@, radix as nat);
        self.start();
        proof {
            lemma_sort_ids(old(self)@.0, old(self)@.1.last());
        }
        loop
            invariant
                self.wf(),
                obeys_key_model::<T>(),
                clone_is_exact::<T>(),
                radix >= 2 || self@.1.last().len() < radix,
                build(self@.0, self@.1, radix as nat) == (target.0, target.1),
                self@.2 == target.2,
            ensures
                self.wf(),
                self@ == target,
            decreases self@.1.last().len(),
        {
            let ghost before = self@;
            match self.single_step(radix) {
                Proc::Cont => {
                    self.sort_last_level();
                    proof {
                        lemma_sort_ids(
                            step_nodes(before.0, before.1.last(), radix as nat),
                            id_run(before.0.len(), (before.1.last().len() - radix + 1) as nat),
                        );
                    }
                },
                Proc::Stop => {
                    break ;
                },
            }
        }
        match self.last_step() {
            Some(m) => Some(Compressor::from(m)),
            None => None,
        }
    }

    /// Builds the levels with radix `radix` and returns the table of the symbols' codes.
    pub fn encode(&mut self, radix: u32) -> (r: Compressor<T>)
        requires
            old(self).wf(),
            obeys_key_model::<T>(),
            clone_is_exact::<T>(),
            radix >= 2 || old(self)@.1.last().len() < radix,
            all_codes_fit(encoded(old(self)@, radix as nat)),
        ensures
            final(self).wf(),
            final(self)@ == encoded(old(self)@, radix as nat),
            bit_views(r@) == table_of(final(self)@),
    {
        self.try_encode(radix).unwrap()
    }
}

} // verus!
