use std::collections::HashMap;
use std::hash::Hash;
use vstd::prelude::*;
use vstd::std_specs::hash::obeys_key_model;

use crate::bits::{
    bit_seq, bitvec_wf, can_push_all, lemma_pushed_all_appends, pushed_all, stored_bits,
    strings_bits, BitString, BitVec, BitVecView, all_fit,
};

verus! {

broadcast use vstd::std_specs::hash::group_hash_axioms;

/// A clone of a `T` is equal to the value it was cloned from.
pub open spec fn clone_is_exact<T: Clone>() -> bool {
    forall|a: T, b: T| #[trigger] call_ensures(T::clone, (&a,), b) ==> a == b
}

/// The bit strings that encode `syms`, one after the other.
pub open spec fn code_pieces<T>(codes: Map<T, BitString>, syms: Seq<T>) -> Seq<(u32, u32)> {
    syms.map_values(|x: T| codes[x]@)
}

/// The table of `codes` with the symbols wrapped in `Some`, and `None` mapped to the
/// delimiter.
pub open spec fn with_delimiter<T>(delimiter: BitString, codes: Map<T, BitString>) -> Map<
    Option<T>,
    BitString,
> {
    Map::new(
        |o: Option<T>|
            match o {
                Some(x) => codes.contains_key(x),
                None => true,
            },
        |o: Option<T>|
            match o {
                Some(x) => codes[x],
                None => delimiter,
            },
    )
}

/// The table of the symbols of `codes` that are `Some`, unwrapped.
pub open spec fn without_delimiter<T>(codes: Map<Option<T>, BitString>) -> Map<T, BitString> {
    Map::new(|x: T| codes.contains_key(Some(x)), |x: T| codes[Some(x)])
}

/// The code of `None` in `codes`, if it has one.
pub open spec fn delimiter_of<T>(codes: Map<Option<T>, BitString>) -> Option<BitString> {
    if codes.contains_key(None) {
        Some(codes[None])
    } else {
        None
    }
}

/// Wrapping a table with a delimiter and splitting it again gives the delimiter and the
/// table back.
pub proof fn lemma_option_table_roundtrip<T>(delimiter: BitString, codes: Map<T, BitString>)
    ensures
        delimiter_of(with_delimiter(delimiter, codes)) == Some(delimiter),
        without_delimiter(with_delimiter(delimiter, codes)) == codes,
{
    assert(without_delimiter(with_delimiter(delimiter, codes)) =~= codes);
}

/// Encodes symbols with a table of bit strings.
#[derive(Debug)]
pub struct Compressor<T: Hash + Clone + Eq> {
    map: HashMap<T, BitString>,
}

impl<T: Hash + Clone + Eq> View for Compressor<T> {
    type V = Map<T, BitString>;

    /// The code of each symbol.
    closed spec fn view(&self) -> Map<T, BitString> {
        self.map@
    }
}

impl<T: Hash + Clone + Eq> Compressor<T> {
    /// A compressor with the given code table.
    pub fn from(map: HashMap<T, BitString>) -> (r: Compressor<T>)
        ensures
            r@ == map@,
    {
        Compressor { map }
    }

    /// The bits of the codes of `symbols`, one after the other.
    pub fn compress(&self, symbols: &[T]) -> (r: BitVec)
        requires
            obeys_key_model::<T>(),
            forall|i: int| 0 <= i < symbols@.len() ==> self@.contains_key(#[trigger] symbols@[i]),
            can_push_all((Seq::<u32>::empty(), 0u32), code_pieces(self@, symbols@)),
        ensures
            r@ == pushed_all((Seq::<u32>::empty(), 0u32), code_pieces(self@, symbols@)),
            bitvec_wf(r@),
            all_fit(code_pieces(self@, symbols@)) ==> stored_bits(r@) == strings_bits(
                code_pieces(self@, symbols@),
            ),
    {
        let ghost ps = code_pieces(self@, symbols@);
        let ghost v0: BitVecView = (Seq::<u32>::empty(), 0u32);
        let mut ret = BitVec::new();
        let mut i: usize = 0;
        assert(ps.take(0) =~= Seq::<(u32, u32)>::empty());
        while i < symbols.len()
            invariant
                i <= symbols@.len(),
                ps == code_pieces(self@, symbols@),
                obeys_key_model::<T>(),
                forall|j: int| 0 <= j < symbols@.len() ==> self@.contains_key(#[trigger] symbols@[j]),
                can_push_all(v0, ps),
                ret@ == pushed_all(v0, ps.take(i as int)),
                bitvec_wf(ret@),
            decreases symbols@.len() - i,
        {
            proof {
                crate::bits::lemma_can_push_all_prefix(v0, ps, i + 1);
                assert(ps.take(i + 1).drop_last() =~= ps.take(i as int));
                assert(ps.take(i + 1).last() == ps[i as int]);
            }
            let conversion = self.map.get(&symbols[i]).unwrap();
            ret.push_bits(conversion);
            i = i + 1;
        }
        proof {
            assert(ps.take(symbols@.len() as int) =~= ps);
            if all_fit(ps) {
                lemma_pushed_all_appends(v0, ps);
            }
        }
        ret
    }

    /// The code table.
    pub fn get_map(&self) -> (r: &HashMap<T, BitString>)
        ensures
            r@ == self@,
    {
        &self.map
    }
}

impl<T: Hash + Clone + Eq> Compressor<T> {
    /// Splits a table over `Option<T>` into the code of `None` and the table of the rest.
    pub fn from_option(comp: Compressor<Option<T>>) -> (r: (Option<BitString>, Compressor<T>))
        requires
            obeys_key_model::<T>(),
            obeys_key_model::<Option<T>>(),
            clone_is_exact::<T>(),
        ensures
            r.0 == delimiter_of(comp@),
            r.1@ == without_delimiter(comp@),
    {
        let mut none: Option<BitString> = None;
        let mut map: HashMap<T, BitString> = HashMap::new();
        let ghost m = comp@;
        let hm = comp.get_map();
        for kv in it: hm.iter()
            invariant
                m == comp@,
                hm@ == m,
                obeys_key_model::<T>(),
                obeys_key_model::<Option<T>>(),
                clone_is_exact::<T>(),
                forall|j: int|
                    0 <= j < it.seq().len() ==> m.contains_key(*#[trigger] it.seq()[j].0) && m[*it.seq()[j].0]
                        == *it.seq()[j].1,
                forall|j: int|
                    #![trigger it.seq()[j]]
                    0 <= j < it.index() ==> match *it.seq()[j].0 {
                        Some(x) => map@.contains_key(x) && map@[x] == m[Some(x)],
                        None => none == Some(m[None]),
                    },
                forall|x: T| #[trigger]
                    map@.contains_key(x) ==> m.contains_key(Some(x)) && map@[x] == m[Some(x)],
                none matches Some(d) ==> m.contains_key(None) && d == m[None],
                it.index() == it.seq().len() ==> forall|o: Option<T>| #[trigger]
                    m.contains_key(o) ==> match o {
                        Some(x) => map@.contains_key(x),
                        None => none is Some,
                    },
        {
            let (key, value) = kv;
            match key {
                Some(x) => {
                    let k = x.clone();
                    map.insert(k, *value);
                },
                None => {
                    none = Some(*value);
                },
            }
            assert forall|o: Option<T>| #[trigger]
                m.contains_key(o) && it.index() + 1 == it.seq().len() implies match o {
                Some(x) => map@.contains_key(x),
                None => none is Some,
            } by {
                assert(hm@.contains_key(o));
                assert(it.seq().contains((&o, &m[o])));
                let j = choose|j: int| 0 <= j < it.seq().len() && it.seq()[j] == (&o, &m[o]);
                assert(*it.seq()[j].0 == o);
            }
        }
        proof {
            assert(map@ =~= without_delimiter(m)) by {
                assert forall|x: T| #[trigger] m.contains_key(Some(x)) implies map@.contains_key(x) by {
                    assert(m.contains_key(Some(x)));
                }
            }
            if m.contains_key(None) {
                assert(none is Some);
            }
        }
        (none, Compressor::from(map))
    }

    /// Extends a table with `None` as a delimiter, wrapping every symbol in `Some`.
    pub fn to_option(delimiter: BitString, comp: &Compressor<T>) -> (r: Compressor<Option<T>>)
        requires
            obeys_key_model::<T>(),
            obeys_key_model::<Option<T>>(),
            clone_is_exact::<T>(),
        ensures
            r@ == with_delimiter(delimiter, comp@),
    {
        let mut map: HashMap<Option<T>, BitString> = HashMap::new();
        map.insert(None, delimiter);
        let ghost m = comp@;
        let hm = comp.get_map();
        for kv in it: hm.iter()
            invariant
                m == comp@,
                hm@ == m,
                obeys_key_model::<T>(),
                obeys_key_model::<Option<T>>(),
                clone_is_exact::<T>(),
                forall|j: int|
                    0 <= j < it.seq().len() ==> m.contains_key(*#[trigger] it.seq()[j].0) && m[*it.seq()[j].0]
                        == *it.seq()[j].1,
                forall|j: int|
                    #![trigger it.seq()[j]]
                    0 <= j < it.index() ==> map@.contains_key(Some(*it.seq()[j].0)) && map@[Some(
                        *it.seq()[j].0,
                    )] == m[*it.seq()[j].0],
                forall|o: Option<T>| #[trigger]
                    map@.contains_key(o) ==> match o {
                        Some(x) => m.contains_key(x) && map@[o] == m[x],
                        None => map@[o] == delimiter,
                    },
                map@.contains_key(None),
                it.index() == it.seq().len() ==> forall|x: T| #[trigger]
                    m.contains_key(x) ==> map@.contains_key(Some(x)),
        {
            let (key, value) = kv;
            let k = key.clone();
            map.insert(Some(k), *value);
            assert forall|x: T| #[trigger]
                m.contains_key(x) && it.index() + 1 == it.seq().len() implies map@.contains_key(
                Some(x),
            ) by {
                assert(hm@.contains_key(x));
                assert(it.seq().contains((&x, &m[x])));
                let j = choose|j: int| 0 <= j < it.seq().len() && it.seq()[j] == (&x, &m[x]);
                assert(*it.seq()[j].0 == x);
            }

        }
        proof {
            assert(map@ =~= with_delimiter(delimiter, m));
        }
        Compressor::from(map)
    }
}

} // verus!
