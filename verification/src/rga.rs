//! A replicated growable array over explicit integer element ids.
//!
//! Local edits are phrased against visible indices and turned into
//! operations that name element ids; interpreting an operation applies the
//! ordered-list rules, so the state after a set of operations does not
//! depend on the order the operations arrive in.

use crate::ordered_list::{opt_view, spec_delete, spec_insert_old, visible, visible_values, OrderedList};
use vstd::prelude::*;

verus! {

/// A replicated-growable-array operation: insert a value under an id after
/// a reference element, or delete an element by id.
pub enum RGAOp {
    Insert(u64, String, Option<u64>),
    Delete(u64),
}

/// The abstract value of an operation.
pub enum RGAOpView {
    Insert(u64, Seq<char>, Option<u64>),
    Delete(u64),
}

impl View for RGAOp {
    type V = RGAOpView;

    open spec fn view(&self) -> RGAOpView {
        match self {
            RGAOp::Insert(id, v, after) => RGAOpView::Insert(*id, v@, *after),
            RGAOp::Delete(id) => RGAOpView::Delete(*id),
        }
    }
}

/// The list after interpreting one operation.
pub open spec fn spec_rga_step(s: Seq<(u64, Seq<char>, bool)>, op: RGAOpView) -> Seq<
    (u64, Seq<char>, bool),
> {
    match op {
        RGAOpView::Insert(id, v, after) => spec_insert_old::<u64, Seq<char>>(s, id, v, after),
        RGAOpView::Delete(id) => spec_delete::<u64, Seq<char>>(s, id),
    }
}

/// A replicated growable array of strings keyed by integer element ids.
pub struct RGA {
    pub elements: OrderedList<u64, String>,
}

impl View for RGA {
    type V = Seq<(u64, Seq<char>, bool)>;

    open spec fn view(&self) -> Seq<(u64, Seq<char>, bool)> {
        self.elements@
    }
}

impl RGA {
    /// An empty array.
    pub fn new() -> (r: RGA)
        ensures
            r@ == Seq::<(u64, Seq<char>, bool)>::empty(),
    {
        RGA { elements: OrderedList::new() }
    }

    /// The value at visible index `idx`.
    pub fn get(&self, idx: usize) -> (r: Option<String>)
        ensures
            r is Some <==> idx < visible(self@).len(),
            r matches Some(v) ==> v@ == visible(self@)[idx as int].1,
    {
        self.elements.get(idx)
    }

    /// The visible values, in list order.
    pub fn get_list(&self) -> (r: Vec<String>)
        ensures
            crate::serialize::str_views(r@) == visible_values(self@),
    {
        let r = self.elements.get_list();
        proof {
            assert(crate::serialize::str_views(r@) =~= crate::serialize::views_of(r@));
        }
        r
    }

    /// Build the insert that places `value` at visible index `idx`: anchored
    /// on nothing for the head, else on the element just before `idx`.
    /// `None`, with no state change, when `idx` is past the end.
    pub fn insert(&mut self, idx: usize, value: String, elem_id: u64) -> (r: Option<RGAOp>)
        ensures
            *final(self) == *old(self),
            r is Some <==> (idx == 0 || idx - 1 < visible(old(self)@).len()),
            r matches Some(op) ==> op@ == (if idx == 0 {
                RGAOpView::Insert(elem_id, value@, None)
            } else {
                RGAOpView::Insert(
                    elem_id,
                    value@,
                    Some(visible(old(self)@)[idx - 1].0),
                )
            }),
    {
        if idx == 0 {
            Some(RGAOp::Insert(elem_id, value, None))
        } else {
            match self.elements.get_by_idx(idx - 1) {
                Some(prev) => Some(RGAOp::Insert(elem_id, value, Some(prev.0))),
                None => None,
            }
        }
    }

    /// Build the delete of the element at visible index `idx`; `None` when
    /// out of range.
    pub fn delete(&mut self, idx: usize) -> (r: Option<RGAOp>)
        ensures
            *final(self) == *old(self),
            r is Some <==> idx < visible(old(self)@).len(),
            r matches Some(op) ==> op@ == RGAOpView::Delete(visible(old(self)@)[idx as int].0),
    {
        match self.elements.get_by_idx(idx) {
            Some(e) => Some(RGAOp::Delete(e.0)),
            None => None,
        }
    }

    /// Interpret one operation against the list.
    pub fn interpret_op(&mut self, op: &RGAOp)
        ensures
            final(self)@ == spec_rga_step(old(self)@, op@),
    {
        match op {
            RGAOp::Insert(id, v, after) => {
                let a: Option<u64> = match after {
                    None => None,
                    Some(x) => Some(*x),
                };
                proof {
                    assert(opt_view(a) == op@->Insert_2);
                }
                self.elements.insert(*id, v.clone(), a);
            },
            RGAOp::Delete(id) => {
                self.elements.delete(*id);
            },
        }
    }
}

} // verus!
