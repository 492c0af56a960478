//! An observed-remove set with explicit operation ids.
//!
//! The state maps each element to the set of operation ids under which it
//! was added.  An element is present exactly when that set is non-empty; a
//! remove names the ids it takes away, so an add whose id the remove does
//! not name survives it.

use crate::hash_graph::{lemma_filter_membership, lemma_filter_no_dup};
use crate::serialize::{contains_string, dup_string_vec, str_views};
use vstd::prelude::*;

verus! {

broadcast use vstd::set::group_set_axioms;

/// An observed-remove set operation: add an element under an id, or remove
/// the instances of an element named by a set of ids.
pub enum ORSetOp {
    Add(String, String),
    Remove(String, Vec<String>),
}

/// The abstract value of an operation.
pub enum ORSetOpView {
    Add(Seq<char>, Seq<char>),
    Remove(Seq<char>, Seq<Seq<char>>),
}

impl View for ORSetOp {
    type V = ORSetOpView;

    open spec fn view(&self) -> ORSetOpView {
        match self {
            ORSetOp::Add(e, i) => ORSetOpView::Add(e@, i@),
            ORSetOp::Remove(e, ids) => ORSetOpView::Remove(e@, str_views(ids@)),
        }
    }
}

/// The element map described by an association list of element/ids pairs.
pub open spec fn elems_map(s: Seq<(String, Vec<String>)>) -> Map<Seq<char>, Set<Seq<char>>>
    decreases s.len(),
{
    if s.len() == 0 {
        Map::empty()
    } else {
        elems_map(s.drop_last()).insert(s.last().0@, str_views(s.last().1@).to_set())
    }
}

/// No two entries share an element, and no id list repeats an id.
pub open spec fn elems_wf(s: Seq<(String, Vec<String>)>) -> bool {
    &&& forall|i: int, j: int| 0 <= i < j < s.len() ==> s[i].0@ != s[j].0@
    &&& forall|i: int| 0 <= i < s.len() ==> str_views((#[trigger] s[i]).1@).no_duplicates()
}

pub(crate) proof fn lemma_elems_map_contains(s: Seq<(String, Vec<String>)>)
    ensures
        forall|d: Seq<char>|
            #![trigger elems_map(s).contains_key(d)]
            elems_map(s).contains_key(d) <==> exists|i: int| 0 <= i < s.len() && s[i].0@ == d,
    decreases s.len(),
{
    if s.len() > 0 {
        lemma_elems_map_contains(s.drop_last());
        assert forall|d: Seq<char>| #[trigger]
            elems_map(s).contains_key(d) implies exists|i: int| 0 <= i < s.len() && s[i].0@
            == d by {
            if d == s.last().0@ {
                assert(s[s.len() - 1].0@ == d);
            } else {
                assert(elems_map(s.drop_last()).contains_key(d));
                let i = choose|i: int| 0 <= i < s.drop_last().len() && s.drop_last()[i].0@ == d;
                assert(s.drop_last()[i] == s[i]);
                assert(s[i].0@ == d);
            }
        }
        assert forall|d: Seq<char>| (exists|i: int| 0 <= i < s.len() && s[i].0@ == d) implies
            #[trigger] elems_map(s).contains_key(d) by {
            let i = choose|i: int| 0 <= i < s.len() && s[i].0@ == d;
            if i < s.len() - 1 {
                assert(s.drop_last()[i].0@ == d);
                assert(elems_map(s.drop_last()).contains_key(d));
            } else {
                assert(d == s.last().0@);
            }
        }
    }
}

pub(crate) proof fn lemma_elems_map_index(s: Seq<(String, Vec<String>)>, i: int)
    requires
        forall|i2: int, j2: int| 0 <= i2 < j2 < s.len() ==> s[i2].0@ != s[j2].0@,
        0 <= i < s.len(),
    ensures
        elems_map(s).contains_key(s[i].0@),
        elems_map(s)[s[i].0@] == str_views(s[i].1@).to_set(),
    decreases s.len(),
{
    lemma_elems_map_contains(s);
    if i == s.len() - 1 {
    } else {
        assert forall|i2: int, j2: int|
            0 <= i2 < j2 < s.drop_last().len() implies s.drop_last()[i2].0@ != s.drop_last()[
            j2].0@ by {
            assert(s.drop_last()[i2] == s[i2] && s.drop_last()[j2] == s[j2]);
        }
        lemma_elems_map_index(s.drop_last(), i);
        assert(s.drop_last()[i] == s[i]);
        assert(s[i].0@ != s.last().0@);
    }
}

pub(crate) proof fn lemma_elems_map_update(s: Seq<(String, Vec<String>)>, i: int, ids: Vec<String>)
    requires
        forall|i2: int, j2: int| 0 <= i2 < j2 < s.len() ==> s[i2].0@ != s[j2].0@,
        0 <= i < s.len(),
    ensures
        elems_map(s.update(i, (s[i].0, ids))) == elems_map(s).insert(
            s[i].0@,
            str_views(ids@).to_set(),
        ),
    decreases s.len(),
{
    let s2 = s.update(i, (s[i].0, ids));
    if i == s.len() - 1 {
        assert(s2.drop_last() =~= s.drop_last());
        assert(s2.last() == (s[i].0, ids));
        assert(elems_map(s2) =~= elems_map(s).insert(s[i].0@, str_views(ids@).to_set()));
    } else {
        assert forall|i2: int, j2: int|
            0 <= i2 < j2 < s.drop_last().len() implies s.drop_last()[i2].0@ != s.drop_last()[
            j2].0@ by {
            assert(s.drop_last()[i2] == s[i2] && s.drop_last()[j2] == s[j2]);
        }
        lemma_elems_map_update(s.drop_last(), i, ids);
        assert(s2.drop_last() =~= s.drop_last().update(i, (s[i].0, ids)));
        assert(s2.last() == s.last());
        assert(s[i].0@ != s.last().0@);
        assert(elems_map(s2) == elems_map(s.drop_last()).insert(
            s[i].0@,
            str_views(ids@).to_set(),
        ).insert(s.last().0@, str_views(s.last().1@).to_set()));
        assert(elems_map(s2) =~= elems_map(s).insert(s[i].0@, str_views(ids@).to_set()));
    }
}

pub(crate) proof fn lemma_elems_map_push(s: Seq<(String, Vec<String>)>, e: String, ids: Vec<String>)
    ensures
        elems_map(s.push((e, ids))) == elems_map(s).insert(e@, str_views(ids@).to_set()),
{
    assert(s.push((e, ids)).drop_last() =~= s);
    assert(s.push((e, ids)).last() == (e, ids));
}

/// The state after interpreting one operation.  An add creates the
/// element's entry if it has none; a remove of an element without an entry
/// leaves the map untouched.
pub open spec fn spec_orset_step(m: Map<Seq<char>, Set<Seq<char>>>, op: ORSetOpView) -> Map<
    Seq<char>,
    Set<Seq<char>>,
> {
    match op {
        ORSetOpView::Add(e, i) => m.insert(
            e,
            (if m.contains_key(e) {
                m[e]
            } else {
                Set::empty()
            }).insert(i),
        ),
        ORSetOpView::Remove(e, ids) => if m.contains_key(e) {
            m.insert(e, m[e].difference(ids.to_set()))
        } else {
            m
        },
    }
}

/// Every value set of the element map is finite: each is the set of a
/// finite id list.
pub proof fn lemma_elems_map_values_finite(s: Seq<(String, Vec<String>)>)
    ensures
        forall|e: Seq<char>|
            #![trigger elems_map(s)[e]]
            elems_map(s).contains_key(e) ==> elems_map(s)[e].finite(),
    decreases s.len(),
{
    broadcast use vstd::seq_lib::seq_to_set_is_finite;

    if s.len() > 0 {
        lemma_elems_map_values_finite(s.drop_last());
        assert forall|e: Seq<char>|
            elems_map(s).contains_key(e) implies #[trigger] elems_map(s)[e].finite() by {
            if e == s.last().0@ {
                assert(elems_map(s)[e] == str_views(s.last().1@).to_set());
            } else {
                assert(elems_map(s)[e] == elems_map(s.drop_last())[e]);
            }
        }
    }
}

/// The ids an element is present under: empty when it has no entry.
pub open spec fn present_ids(m: Map<Seq<char>, Set<Seq<char>>>, e: Seq<char>) -> Set<Seq<char>> {
    if m.contains_key(e) {
        m[e]
    } else {
        Set::empty()
    }
}

/// A step loses only what an explicit remove names: an id that was present
/// for an element and is gone afterwards was named by this very operation,
/// for this very element.  In particular an add never loses anything.
pub proof fn lemma_orset_step_loses_only_named(
    m: Map<Seq<char>, Set<Seq<char>>>,
    op: ORSetOpView,
    e: Seq<char>,
    id: Seq<char>,
)
    requires
        present_ids(m, e).contains(id),
        !present_ids(spec_orset_step(m, op), e).contains(id),
    ensures
        op matches ORSetOpView::Remove(e2, ids) && e2 == e && ids.contains(id),
{
    match op {
        ORSetOpView::Add(e2, i2) => {
            if e2 == e {
                assert(present_ids(spec_orset_step(m, op), e).contains(id));
            } else {
                assert(present_ids(spec_orset_step(m, op), e) == present_ids(m, e));
            }
        },
        ORSetOpView::Remove(e2, ids) => {
            if e2 != e {
                assert(present_ids(spec_orset_step(m, op), e) == present_ids(m, e));
            } else {
                assert(m.contains_key(e));
                assert(ids.to_set().contains(id));
            }
        },
    }
}

/// Interpretation commutativity for independent operations: two operations
/// commute whenever neither removes an id the other adds.  A remove may
/// only name ids of adds it has observed, so concurrent operations always
/// satisfy this side condition.
pub proof fn lemma_orset_step_commutes(
    m: Map<Seq<char>, Set<Seq<char>>>,
    op1: ORSetOpView,
    op2: ORSetOpView,
)
    requires
        (op1 matches ORSetOpView::Add(e1, i1) && op2 matches ORSetOpView::Remove(e2, ids2) && e1
            == e2) ==> !op2->Remove_1.contains(op1->Add_1),
        (op2 matches ORSetOpView::Add(e2, i2) && op1 matches ORSetOpView::Remove(e1, ids1) && e1
            == e2) ==> !op1->Remove_1.contains(op2->Add_1),
    ensures
        spec_orset_step(spec_orset_step(m, op1), op2) == spec_orset_step(
            spec_orset_step(m, op2),
            op1,
        ),
{
    let l = spec_orset_step(spec_orset_step(m, op1), op2);
    let r = spec_orset_step(spec_orset_step(m, op2), op1);
    match (op1, op2) {
        (ORSetOpView::Add(e1, i1), ORSetOpView::Add(e2, i2)) => {
            assert(l =~~= r);
        },
        (ORSetOpView::Add(e1, i1), ORSetOpView::Remove(e2, ids2)) => {
            assert(l =~~= r);
        },
        (ORSetOpView::Remove(e1, ids1), ORSetOpView::Add(e2, i2)) => {
            assert(l =~~= r);
        },
        (ORSetOpView::Remove(e1, ids1), ORSetOpView::Remove(e2, ids2)) => {
            assert(l =~~= r);
        },
    }
}

/// An observed-remove set keyed by explicit operation ids.
pub struct ORSet {
    pub elements: Vec<(String, Vec<String>)>,
}

impl View for ORSet {
    type V = Map<Seq<char>, Set<Seq<char>>>;

    open spec fn view(&self) -> Map<Seq<char>, Set<Seq<char>>> {
        elems_map(self.elements@)
    }
}

impl ORSet {
    /// The representation invariant: one entry per element, no repeated id.
    pub open spec fn wf(&self) -> bool {
        elems_wf(self.elements@)
    }

    /// An empty set.
    pub fn new() -> (r: ORSet)
        ensures
            r.wf(),
            r@ == Map::<Seq<char>, Set<Seq<char>>>::empty(),
    {
        let r = ORSet { elements: Vec::new() };
        proof {
            assert(r@ =~= Map::<Seq<char>, Set<Seq<char>>>::empty());
        }
        r
    }

    /// Build an add operation; the state is not touched.
    pub fn add(&mut self, e: String, i: String) -> (r: ORSetOp)
        ensures
            *final(self) == *old(self),
            r@ == ORSetOpView::Add(e@, i@),
    {
        ORSetOp::Add(e, i)
    }

    /// Build a remove operation naming exactly the given ids; the state is
    /// not touched.
    pub fn remove(&mut self, e: String, ids: Vec<String>) -> (r: ORSetOp)
        ensures
            *final(self) == *old(self),
            r@ == ORSetOpView::Remove(e@, str_views(ids@)),
    {
        ORSetOp::Remove(e, ids)
    }

    /// The index of the entry for this element, if there is one.
    #[verifier::loop_isolation(false)]
    fn find_elem(&self, e: &String) -> (r: Option<usize>)
        ensures
            r is Some <==> self@.contains_key(e@),
            r matches Some(i) ==> 0 <= i < self.elements@.len() && self.elements@[i as int].0@
                == e@,
            r is None ==> forall|i: int|
                0 <= i < self.elements@.len() ==> (#[trigger] self.elements@[i]).0@ != e@,
    {
        let mut i: usize = 0;
        while i < self.elements.len()
            invariant
                i <= self.elements@.len(),
                forall|j: int| 0 <= j < i ==> (#[trigger] self.elements@[j]).0@ != e@,
            decreases self.elements@.len() - i,
        {
            if self.elements[i].0.eq(e) {
                proof {
                    lemma_elems_map_contains(self.elements@);
                }
                return Some(i);
            }
            i = i + 1;
        }
        proof {
            lemma_elems_map_contains(self.elements@);
            if self@.contains_key(e@) {
                let j = choose|j: int|
                    0 <= j < self.elements@.len() && self.elements@[j].0@ == e@;
            }
        }
        None
    }

    /// Whether the element is present: some add id for it survives.
    pub fn is_in(&self, e: String) -> (r: bool)
        requires
            self.wf(),
        ensures
            r == (self@.contains_key(e@) && self@[e@].len() != 0),
    {
        match self.find_elem(&e) {
            None => false,
            Some(i) => {
                proof {
                    lemma_elems_map_index(self.elements@, i as int);
                    let ids = self.elements@[i as int].1;
                    str_views(ids@).lemma_cardinality_of_empty_set_is_0();
                }
                self.elements[i].1.len() != 0
            },
        }
    }

    /// The ids under which this element is currently present.
    pub fn get_ids(&self, e: String) -> (r: Vec<String>)
        requires
            self.wf(),
        ensures
            str_views(r@).to_set() == (if self@.contains_key(e@) {
                self@[e@]
            } else {
                Set::<Seq<char>>::empty()
            }),
            str_views(r@).no_duplicates(),
    {
        match self.find_elem(&e) {
            None => {
                let r: Vec<String> = Vec::new();
                proof {
                    assert(str_views(r@).to_set() =~= Set::<Seq<char>>::empty());
                }
                r
            },
            Some(i) => {
                proof {
                    lemma_elems_map_index(self.elements@, i as int);
                }
                dup_string_vec(&self.elements[i].1)
            },
        }
    }

    /// Interpret one operation against the state.
    #[verifier::loop_isolation(false)]
    pub fn interpret_op(&mut self, op: &ORSetOp)
        requires
            old(self).wf(),
        ensures
            final(self).wf(),
            final(self)@ == spec_orset_step(old(self)@, op@),
    {
        let ghost s0 = self.elements@;
        match op {
            ORSetOp::Add(e, i) => {
                match self.find_elem(e) {
                    None => {
                        let mut ids: Vec<String> = Vec::new();
                        ids.push(i.clone());
                        let ghost idsg = ids;
                        let e2 = e.clone();
                        let ghost eg = e2;
                        self.elements.push((e2, ids));
                        proof {
                            lemma_elems_map_push(s0, eg, idsg);
                            assert(str_views(idsg@) =~= Seq::<Seq<char>>::empty().push(i@));
                            Seq::<Seq<char>>::empty().lemma_push_to_set_commute(i@);
                            assert(Seq::<Seq<char>>::empty().to_set() =~= Set::<
                                Seq<char>,
                            >::empty());
                            assert(str_views(idsg@).to_set() =~= Set::<Seq<char>>::empty().insert(
                                i@,
                            ));
                            assert(self@ =~= spec_orset_step(elems_map(s0), op@));
                            assert forall|i2: int, j2: int|
                                0 <= i2 < j2 < self.elements@.len() implies self.elements@[i2].0@
                                != self.elements@[j2].0@ by {
                                if j2 == self.elements@.len() - 1 {
                                    assert(self.elements@[i2] == s0[i2]);
                                    lemma_elems_map_contains(s0);
                                }
                            }
                        }
                    },
                    Some(idx) => {
                        proof {
                            lemma_elems_map_index(s0, idx as int);
                        }
                        let present = contains_string(&self.elements[idx].1, i);
                        if present {
                            proof {
                                let key = s0[idx as int].0@;
                                let old_ids = str_views(s0[idx as int].1@);
                                assert(old_ids.to_set().contains(i@));
                                assert(old_ids.to_set().insert(i@) =~= old_ids.to_set());
                                assert(elems_map(s0).insert(key, old_ids.to_set()) =~= elems_map(
                                    s0,
                                ));
                                assert(self@ =~= spec_orset_step(elems_map(s0), op@));
                            }
                        } else {
                            let entry = self.elements.remove(idx);
                            let mut ids = entry.1;
                            ids.push(i.clone());
                            let ghost idsg = ids;
                            self.elements.insert(idx, (entry.0, ids));
                            proof {
                                let key = s0[idx as int].0@;
                                let old_ids = str_views(s0[idx as int].1@);
                                assert(self.elements@ =~= s0.update(
                                    idx as int,
                                    (s0[idx as int].0, idsg),
                                )) by {
                                    assert forall|k: int|
                                        0 <= k < self.elements@.len() implies self.elements@[k]
                                        == s0.update(idx as int, (s0[idx as int].0, idsg))[k] by {
                                        if k < idx {
                                            assert(self.elements@[k] == s0.remove(
                                                idx as int,
                                            ).insert(idx as int, (entry.0, idsg))[k]);
                                        } else if k > idx {
                                            assert(self.elements@[k] == s0.remove(
                                                idx as int,
                                            ).insert(idx as int, (entry.0, idsg))[k]);
                                            assert(s0.remove(idx as int)[k - 1] == s0[k]);
                                        }
                                    }
                                }
                                lemma_elems_map_update(s0, idx as int, idsg);
                                assert(str_views(idsg@) =~= old_ids.push(i@));
                                old_ids.lemma_push_to_set_commute(i@);
                                assert(str_views(idsg@).to_set() =~= old_ids.to_set().insert(i@));
                                assert(self@ =~= spec_orset_step(elems_map(s0), op@));
                                assert forall|k: int|
                                    0 <= k < self.elements@.len() implies str_views((
                                #[trigger] self.elements@[k]).1@).no_duplicates() by {
                                    if k == idx {
                                        assert(!old_ids.contains(i@)) by {
                                            if old_ids.contains(i@) {
                                                let j3 = choose|j3: int|
                                                    0 <= j3 < old_ids.len() && old_ids[j3] == i@;
                                                assert(old_ids.to_set().contains(i@));
                                            }
                                        }
                                        assert forall|a: int, b: int|
                                            0 <= a < b < str_views(idsg@).len() implies str_views(
                                            idsg@,
                                        )[a] != str_views(idsg@)[b] by {
                                            if b == str_views(idsg@).len() - 1 {
                                                if old_ids[a] == i@ {
                                                    assert(old_ids.contains(i@));
                                                }
                                            }
                                        }
                                    } else {
                                        assert(self.elements@[k].1 == s0.update(
                                            idx as int,
                                            (s0[idx as int].0, idsg),
                                        )[k].1);
                                    }
                                }
                            }
                        }
                    },
                }
            },
            ORSetOp::Remove(e, rem_ids) => {
                match self.find_elem(e) {
                    None => {
                        // no entry for the element: nothing to take away
                        proof {
                            assert(self@ == spec_orset_step(elems_map(s0), op@));
                        }
                    },
                    Some(idx) => {
                        proof {
                            lemma_elems_map_index(s0, idx as int);
                        }
                        let ghost old_ids = str_views(s0[idx as int].1@);
                        let ghost pred = |x: Seq<char>| !str_views(rem_ids@).contains(x);
                        let mut kept: Vec<String> = Vec::new();
                        let old_vec = &self.elements[idx].1;
                        let mut k: usize = 0;
                        while k < old_vec.len()
                            invariant
                                k <= old_vec@.len(),
                                old_vec@ == s0[idx as int].1@,
                                pred == (|x: Seq<char>| !str_views(rem_ids@).contains(x)),
                                str_views(kept@) == str_views(old_vec@).take(k as int).filter(
                                    pred,
                                ),
                            decreases old_vec@.len() - k,
                        {
                            let ghost prevk = str_views(kept@);
                            let ghost hv = str_views(old_vec@);
                            proof {
                                reveal(Seq::filter);
                                assert(hv[k as int] == old_vec@[k as int]@);
                                assert(hv.take(k + 1).drop_last() =~= hv.take(k as int));
                                assert(hv.take(k + 1).last() == hv[k as int]);
                            }
                            let keep = !contains_string(rem_ids, &old_vec[k]);
                            if keep {
                                kept.push(old_vec[k].clone());
                                proof {
                                    assert(str_views(kept@) =~= prevk.push(hv[k as int]));
                                }
                            }
                            k = k + 1;
                            proof {
                                reveal(Seq::filter);
                                assert(str_views(kept@) == hv.take(k as int).filter(pred));
                            }
                        }
                        proof {
                            assert(str_views(old_vec@).take(old_vec@.len() as int) =~= str_views(
                                old_vec@,
                            ));
                        }
                        let ghost keptg = kept;
                        let entry = self.elements.remove(idx);
                        self.elements.insert(idx, (entry.0, kept));
                        proof {
                            assert(self.elements@ =~= s0.update(
                                idx as int,
                                (s0[idx as int].0, keptg),
                            )) by {
                                assert forall|k2: int|
                                    0 <= k2 < self.elements@.len() implies self.elements@[k2]
                                    == s0.update(idx as int, (s0[idx as int].0, keptg))[k2] by {
                                    if k2 < idx {
                                        assert(self.elements@[k2] == s0.remove(idx as int).insert(
                                            idx as int,
                                            (entry.0, keptg),
                                        )[k2]);
                                    } else if k2 > idx {
                                        assert(self.elements@[k2] == s0.remove(idx as int).insert(
                                            idx as int,
                                            (entry.0, keptg),
                                        )[k2]);
                                        assert(s0.remove(idx as int)[k2 - 1] == s0[k2]);
                                    }
                                }
                            }
                            lemma_elems_map_update(s0, idx as int, keptg);
                            lemma_filter_membership(old_ids, pred);
                            lemma_filter_no_dup(old_ids, pred);
                            assert(str_views(keptg@).to_set() =~= old_ids.to_set().difference(
                                str_views(rem_ids@).to_set(),
                            )) by {
                                assert forall|x: Seq<char>|
                                    str_views(keptg@).to_set().contains(x) implies
                                    old_ids.to_set().contains(x) && !str_views(
                                    rem_ids@,
                                ).to_set().contains(x) by {
                                    assert(old_ids.filter(pred).contains(x));
                                    assert(old_ids.contains(x) && pred(x));
                                    if str_views(rem_ids@).to_set().contains(x) {
                                        assert(str_views(rem_ids@).contains(x));
                                    }
                                }
                                assert forall|x: Seq<char>|
                                    old_ids.to_set().contains(x) && !str_views(
                                    rem_ids@,
                                ).to_set().contains(x) implies str_views(
                                    keptg@,
                                ).to_set().contains(x) by {
                                    assert(old_ids.contains(x));
                                    assert(pred(x)) by {
                                        if str_views(rem_ids@).contains(x) {
                                            assert(str_views(rem_ids@).to_set().contains(x));
                                        }
                                    }
                                    assert(old_ids.filter(pred).contains(x));
                                }
                            }
                            assert(self@ =~= spec_orset_step(elems_map(s0), op@));
                            assert forall|k2: int|
                                0 <= k2 < self.elements@.len() implies str_views((
                            #[trigger] self.elements@[k2]).1@).no_duplicates() by {
                                if k2 != idx {
                                    assert(self.elements@[k2].1 == s0.update(
                                        idx as int,
                                        (s0[idx as int].0, keptg),
                                    )[k2].1);
                                }
                            }
                        }
                    },
                }
            },
        }
    }
}

} // verus!
