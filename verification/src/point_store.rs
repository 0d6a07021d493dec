use std::cmp::Ordering;
use vstd::prelude::*;
use vstd::std_specs::cmp::{PartialEqSpecImpl, PartialOrdSpecImpl};

verus! {

/// A value with the position `(x, y)` it belongs to.
#[derive(Debug)]
pub enum PStore<T> {
    PointStore(T, usize, usize),
}

/// Orders positions row by row: by `y`, then by `x`.
pub open spec fn position_order(x1: usize, y1: usize, x2: usize, y2: usize) -> Ordering {
    if y2 > y1 {
        Ordering::Less
    } else if y2 == y1 {
        if x1 < x2 {
            Ordering::Less
        } else if x1 == x2 {
            Ordering::Equal
        } else {
            Ordering::Greater
        }
    } else {
        Ordering::Greater
    }
}

/// The order of positions is total: each pair compares one way and its reverse the other
/// way, `Equal` exactly for the same position, and `Less` chains.
pub proof fn lemma_position_order_total(
    x1: usize,
    y1: usize,
    x2: usize,
    y2: usize,
    x3: usize,
    y3: usize,
)
    ensures
        position_order(x1, y1, x2, y2) == Ordering::Less <==> position_order(x2, y2, x1, y1)
            == Ordering::Greater,
        position_order(x1, y1, x2, y2) == Ordering::Equal <==> (x1 == x2 && y1 == y2),
        position_order(x1, y1, x2, y2) == Ordering::Less && position_order(x2, y2, x3, y3)
            == Ordering::Less ==> position_order(x1, y1, x3, y3) == Ordering::Less,
{
}

impl<T> PartialEq for PStore<T> {
    /// Two stores are equal when they hold the same position, whatever their values.
    fn eq(&self, cmp: &PStore<T>) -> (r: bool) {
        let PStore::PointStore(_, x1, y1) = self;
        let PStore::PointStore(_, x2, y2) = cmp;
        *x1 == *x2 && *y1 == *y2
    }
}

impl<T> PartialEqSpecImpl for PStore<T> {
    open spec fn obeys_eq_spec() -> bool {
        true
    }

    open spec fn eq_spec(&self, cmp: &PStore<T>) -> bool {
        let PStore::PointStore(_, x1, y1) = *self;
        let PStore::PointStore(_, x2, y2) = *cmp;
        x1 == x2 && y1 == y2
    }
}

impl<T> Eq for PStore<T> {

}

impl<T> PartialOrd for PStore<T> {
    /// Compares the positions row by row, whatever the values.
    fn partial_cmp(&self, cmp: &PStore<T>) -> (r: Option<Ordering>) {
        let PStore::PointStore(_, x1, y1) = self;
        let PStore::PointStore(_, x2, y2) = cmp;
        if *y2 > *y1 {
            Some(Ordering::Less)
        } else if *y2 == *y1 {
            if *x1 < *x2 {
                Some(Ordering::Less)
            } else if *x1 == *x2 {
                Some(Ordering::Equal)
            } else {
                Some(Ordering::Greater)
            }
        } else {
            Some(Ordering::Greater)
        }
    }
}

impl<T> PartialOrdSpecImpl for PStore<T> {
    open spec fn obeys_partial_cmp_spec() -> bool {
        true
    }

    open spec fn partial_cmp_spec(&self, cmp: &PStore<T>) -> Option<Ordering> {
        let PStore::PointStore(_, x1, y1) = *self;
        let PStore::PointStore(_, x2, y2) = *cmp;
        Some(position_order(x1, y1, x2, y2))
    }
}

} // verus!
