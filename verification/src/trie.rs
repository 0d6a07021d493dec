use std::collections::HashMap;
use vstd::prelude::*;

verus! {

broadcast use vstd::std_specs::hash::group_hash_axioms;

/// A prefix tree from sequences of digits to values.
#[derive(Debug)]
pub struct Trie<T> {
    pub value: Option<T>,
    nodes: HashMap<u32, Trie<T>>,
}

impl<T> Trie<T> {
    /// The subtree under the digit `k`, if there is one.
    pub closed spec fn child(self, k: u32) -> Option<Trie<T>> {
        if self.nodes@.contains_key(k) {
            Some(self.nodes@[k])
        } else {
            None
        }
    }

    /// The value stored at the root.
    pub closed spec fn root_value(self) -> Option<T> {
        self.value
    }

    /// The value stored under the path `p`.
    pub open spec fn lookup(self, p: Seq<u32>) -> Option<T>
        decreases p.len(),
    {
        if p.len() == 0 {
            self.root_value()
        } else {
            match self.child(p[0]) {
                Some(c) => c.lookup(p.drop_first()),
                None => None,
            }
        }
    }

    /// An empty trie: no value, no subtree.
    pub fn new() -> (r: Trie<T>)
        ensures
            r.root_value() is None,
            forall|k: u32| #[trigger] r.child(k) is None,
            forall|p: Seq<u32>| #[trigger] r.lookup(p) is None,
    {
        let r = Trie { value: None, nodes: HashMap::new() };
        assert forall|p: Seq<u32>| #[trigger] r.lookup(p) is None by {
            if p.len() > 0 {
                assert(r.child(p[0]) is None);
            }
        }
        r
    }

    /// Stores `value` under the path `mapping`, creating the subtrees on the way.
    pub fn insert(&mut self, mapping: &[u32], value: T)
        ensures
            forall|p: Seq<u32>|
                #[trigger] final(self).lookup(p) == if p == mapping@ {
                    Some(value)
                } else {
                    old(self).lookup(p)
                },
    {
        assert(mapping@.skip(0) =~= mapping@);
        self.insert_from(mapping, 0, value);
    }

    fn insert_from(&mut self, mapping: &[u32], start: usize, value: T)
        requires
            start <= mapping@.len(),
        ensures
            forall|p: Seq<u32>|
                #[trigger] final(self).lookup(p) == if p == mapping@.skip(start as int) {
                    Some(value)
                } else {
                    old(self).lookup(p)
                },
        decreases mapping@.len() - start,
    {
        if start == mapping.len() {
            self.value = Some(value);
            assert forall|p: Seq<u32>| #[trigger] self.lookup(p) == if p == mapping@.skip(
                start as int,
            ) {
                Some(value)
            } else {
                old(self).lookup(p)
            } by {
                if p.len() > 0 {
                    assert(self.child(p[0]) == old(self).child(p[0]));
                } else {
                    assert(p =~= mapping@.skip(start as int));
                }
            }
        } else {
            let k = mapping[start];
            let ghost old_child = old(self).child(k);
            let mut child = match self.nodes.remove(&k) {
                Some(c) => c,
                None => Trie::new(),
            };
            let ghost mid = child;
            assert(forall|q: Seq<u32>|
                #[trigger] mid.lookup(q) == match old_child {
                    Some(c) => c.lookup(q),
                    None => None,
                });
            child.insert_from(mapping, start + 1, value);
            self.nodes.insert(k, child);
            assert forall|p: Seq<u32>| #[trigger] self.lookup(p) == if p == mapping@.skip(
                start as int,
            ) {
                Some(value)
            } else {
                old(self).lookup(p)
            } by {
                if p.len() > 0 {
                    let q = p.drop_first();
                    let m = mapping@.skip(start as int);
                    if p[0] == k {
                        assert(self.child(k) == Some(child));
                        assert(self.lookup(p) == child.lookup(q));
                        assert(old(self).lookup(p) == mid.lookup(q));
                        assert(m.drop_first() =~= mapping@.skip(start + 1));
                        assert(m[0] == k);
                        if q == mapping@.skip(start + 1) {
                            assert(p.len() == m.len());
                            assert forall|i: int| 0 <= i < p.len() implies p[i] == m[i] by {
                                if i > 0 {
                                    assert(p[i] == q[i - 1]);
                                }
                            }
                            assert(p =~= m);
                        }
                        if p == m {
                            assert(q =~= mapping@.skip(start + 1));
                        }
                    } else {
                        assert(self.child(p[0]) == old(self).child(p[0]));
                        assert(p[0] != m[0]);
                    }
                } else {
                    assert(p.len() != mapping@.skip(start as int).len());
                }
            }
        }
    }

    /// The value stored under the path `mapping`.
    pub fn get_mapping(&self, mapping: &[u32]) -> (r: Option<&T>)
        ensures
            match r {
                Some(x) => self.lookup(mapping@) == Some(*x),
                None => self.lookup(mapping@) is None,
            },
    {
        assert(mapping@.skip(0) =~= mapping@);
        self.get_mapping_from(mapping, 0)
    }

    fn get_mapping_from(&self, mapping: &[u32], start: usize) -> (r: Option<&T>)
        requires
            start <= mapping@.len(),
        ensures
            match r {
                Some(x) => self.lookup(mapping@.skip(start as int)) == Some(*x),
                None => self.lookup(mapping@.skip(start as int)) is None,
            },
        decreases mapping@.len() - start,
    {
        if start == mapping.len() {
            match self.value {
                Some(ref x) => Some(x),
                _ => None,
            }
        } else {
            let ghost p = mapping@.skip(start as int);
            assert(p.drop_first() =~= mapping@.skip(start + 1));
            match self.nodes.get(&mapping[start]) {
                Some(node) => node.get_mapping_from(mapping, start + 1),
                _ => None,
            }
        }
    }

    /// The value stored at the root.
    pub fn value(&self) -> (r: &Option<T>)
        ensures
            *r == self.root_value(),
    {
        &self.value
    }

    /// The subtree under the digit `mapping`.
    pub fn get_node(&self, mapping: u32) -> (r: Option<&Trie<T>>)
        ensures
            match r {
                Some(c) => self.child(mapping) == Some(*c),
                None => self.child(mapping) is None,
            },
    {
        self.nodes.get(&mapping)
    }
}

} // verus!
