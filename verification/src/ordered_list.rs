//! An ordered list with tombstones.
//!
//! Elements carry a totally ordered id, a value and a deleted flag.  An
//! insert walks from the head (or from just past a reference element) and
//! splices the new element in before the first element whose id is strictly
//! less than the new one; among concurrent inserts after the same reference
//! this puts larger ids first, which is what makes the order of a replicated
//! growable array independent of delivery order.  Deletion only sets the
//! flag; the element stays as an anchor for later inserts.

use crate::serialize::DupValue;
use vstd::prelude::*;

verus! {

/// A list key: a type whose views carry a strict total order.
pub trait ListKey: View + Sized {
    /// The strict order on key views.
    spec fn key_lt(a: Self::V, b: Self::V) -> bool;

    /// The order is irreflexive, transitive and total.
    proof fn lemma_key_order(a: Self::V, b: Self::V, c: Self::V)
        ensures
            !Self::key_lt(a, a),
            Self::key_lt(a, b) && Self::key_lt(b, c) ==> Self::key_lt(a, c),
            a != b ==> Self::key_lt(a, b) || Self::key_lt(b, a),
    ;

    /// Decide the strict order.
    fn lt(&self, other: &Self) -> (r: bool)
        ensures
            r == Self::key_lt(self@, other@),
    ;

    /// Decide equality of key views.
    fn key_eq(&self, other: &Self) -> (r: bool)
        ensures
            r == (self@ == other@),
    ;
}

impl ListKey for u64 {
    open spec fn key_lt(a: u64, b: u64) -> bool {
        a < b
    }

    proof fn lemma_key_order(a: u64, b: u64, c: u64) {
    }

    fn lt(&self, other: &u64) -> (r: bool) {
        *self < *other
    }

    fn key_eq(&self, other: &u64) -> (r: bool) {
        *self == *other
    }
}

/// The views of a sequence of list entries.
pub open spec fn entry_views<I: View, V: View>(s: Seq<(I, V, bool)>) -> Seq<(I::V, V::V, bool)> {
    s.map_values(|e: (I, V, bool)| (e.0@, e.1@, e.2))
}

/// The view of an optional reference id.
pub open spec fn opt_view<I: View>(o: Option<I>) -> Option<I::V> {
    match o {
        None => None,
        Some(a) => Some(a@),
    }
}

/// The first index at or past `from` whose id is strictly less than `id`,
/// or the length if there is none: the place the insert rule splices at.
pub open spec fn insert_pos<I: ListKey, VV>(s: Seq<(I::V, VV, bool)>, from: int, id: I::V) -> int
    decreases s.len() - from,
        when 0 <= from <= s.len()
{
    if from >= s.len() {
        s.len() as int
    } else if I::key_lt(s[from].0, id) {
        from
    } else {
        insert_pos::<I, VV>(s, from + 1, id)
    }
}

/// The first index at or past `from` whose id equals `id`, or the length.
pub open spec fn find_index<I: ListKey, VV>(s: Seq<(I::V, VV, bool)>, from: int, id: I::V) -> int
    decreases s.len() - from,
        when 0 <= from <= s.len()
{
    if from >= s.len() {
        s.len() as int
    } else if s[from].0 == id {
        from
    } else {
        find_index::<I, VV>(s, from + 1, id)
    }
}

/// Whether an insert with this reference applies to the list.
pub open spec fn insert_applies<I: ListKey, VV>(
    s: Seq<(I::V, VV, bool)>,
    after: Option<I::V>,
) -> bool {
    match after {
        None => true,
        Some(a) => find_index::<I, VV>(s, 0, a) < s.len(),
    }
}

/// The list after an ordered insert: from the head when `after` is `None`,
/// else from just past the first element with the reference id.  When the
/// reference is absent the list is unchanged.
pub open spec fn spec_insert<I: ListKey, VV>(
    s: Seq<(I::V, VV, bool)>,
    id: I::V,
    v: VV,
    after: Option<I::V>,
) -> Seq<(I::V, VV, bool)> {
    match after {
        None => s.insert(insert_pos::<I, VV>(s, 0, id), (id, v, false)),
        Some(a) => {
            let j = find_index::<I, VV>(s, 0, a);
            if j < s.len() {
                s.insert(insert_pos::<I, VV>(s, j + 1, id), (id, v, false))
            } else {
                s
            }
        },
    }
}

/// The list after marking the first element with this id deleted; unchanged
/// when the id is absent.
pub open spec fn spec_delete<I: ListKey, VV>(
    s: Seq<(I::V, VV, bool)>,
    id: I::V,
) -> Seq<(I::V, VV, bool)> {
    let j = find_index::<I, VV>(s, 0, id);
    if j < s.len() {
        s.update(j, (s[j].0, s[j].1, true))
    } else {
        s
    }
}

/// The entries whose deleted flag is clear, in list order.
pub open spec fn visible<IV, VV>(s: Seq<(IV, VV, bool)>) -> Seq<(IV, VV, bool)>
    decreases s.len(),
{
    if s.len() == 0 {
        Seq::empty()
    } else if !s[0].2 {
        seq![s[0]] + visible(s.drop_first())
    } else {
        visible(s.drop_first())
    }
}

/// The values of the visible entries, in list order.
pub open spec fn visible_values<IV, VV>(s: Seq<(IV, VV, bool)>) -> Seq<VV> {
    visible(s).map_values(|e: (IV, VV, bool)| e.1)
}

/// Appending an entry appends to the visible entries exactly when its flag
/// is clear.
pub proof fn lemma_visible_push<IV, VV>(s: Seq<(IV, VV, bool)>, e: (IV, VV, bool))
    ensures
        visible(s.push(e)) == if !e.2 {
            visible(s).push(e)
        } else {
            visible(s)
        },
    decreases s.len(),
{
    if s.len() == 0 {
        assert(s.push(e)[0] == e);
        assert(s.push(e).drop_first() =~= s);
        if !e.2 {
            assert(visible(s.push(e)) =~= visible(s).push(e));
        } else {
            assert(visible(s.push(e)) =~= visible(s));
        }
    } else {
        assert(s.push(e)[0] == s[0]);
        assert(s.push(e).drop_first() =~= s.drop_first().push(e));
        lemma_visible_push(s.drop_first(), e);
        if !s[0].2 {
            if !e.2 {
                assert(visible(s.push(e)) =~= visible(s).push(e));
            } else {
                assert(visible(s.push(e)) =~= visible(s));
            }
        } else {
            if !e.2 {
                assert(visible(s.push(e)) =~= visible(s).push(e));
            } else {
                assert(visible(s.push(e)) =~= visible(s));
            }
        }
    }
}

/// Membership in the visible entries: exactly the entries whose deleted
/// flag is clear.
pub proof fn lemma_visible_membership<IV, VV>(s: Seq<(IV, VV, bool)>, x: (IV, VV, bool))
    ensures
        visible(s).contains(x) <==> (s.contains(x) && !x.2),
    decreases s.len(),
{
    if s.len() == 0 {
    } else {
        lemma_visible_membership(s.drop_first(), x);
        let rest = visible(s.drop_first());
        if !s[0].2 {
            let v = seq![s[0]] + rest;
            assert(visible(s) == v);
            if v.contains(x) {
                let k = choose|k: int| 0 <= k < v.len() && v[k] == x;
                if k == 0 {
                    assert(x == s[0]);
                    assert(s.contains(x));
                } else {
                    assert(rest[k - 1] == x);
                    assert(rest.contains(x));
                    let k2 = choose|k2: int|
                        0 <= k2 < s.drop_first().len() && s.drop_first()[k2] == x;
                    assert(s[k2 + 1] == x);
                    assert(s.contains(x));
                }
            }
            if s.contains(x) && !x.2 {
                let k = choose|k: int| 0 <= k < s.len() && s[k] == x;
                if k == 0 {
                    assert(v[0] == x);
                } else {
                    assert(s.drop_first()[k - 1] == x);
                    assert(s.drop_first().contains(x));
                    let k2 = choose|k2: int| 0 <= k2 < rest.len() && rest[k2] == x;
                    assert(v[k2 + 1] == x);
                }
                assert(v.contains(x));
            }
        } else {
            assert(visible(s) == rest);
            if rest.contains(x) {
                assert(s.drop_first().contains(x));
                let k2 = choose|k2: int|
                    0 <= k2 < s.drop_first().len() && s.drop_first()[k2] == x;
                assert(s[k2 + 1] == x);
                assert(s.contains(x));
            }
            if s.contains(x) && !x.2 {
                let k = choose|k: int| 0 <= k < s.len() && s[k] == x;
                assert(k != 0);
                assert(s.drop_first()[k - 1] == x);
                assert(s.drop_first().contains(x));
            }
        }
    }
}

/// An ordered list of `(id, value, deleted)` entries.
#[derive(Clone)]
pub struct OrderedList<I, V> {
    pub elements: Vec<(I, V, bool)>,
}

impl<I: View, V: View> View for OrderedList<I, V> {
    type V = Seq<(I::V, V::V, bool)>;

    open spec fn view(&self) -> Seq<(I::V, V::V, bool)> {
        entry_views(self.elements@)
    }
}

impl<I: ListKey + DupValue, V: DupValue> OrderedList<I, V> {
    /// An empty list.
    pub fn new() -> (r: OrderedList<I, V>)
        ensures
            r@ == Seq::<(I::V, V::V, bool)>::empty(),
    {
        let r = OrderedList::<I, V> { elements: Vec::new() };
        proof {
            assert(r@ =~= Seq::<(I::V, V::V, bool)>::empty());
        }
        r
    }

    /// The index of the first element at or past `from` whose id is
    /// strictly less than `id`, or the length.
    #[verifier::loop_isolation(false)]
    fn scan_insert_pos(&self, from: usize, id: &I) -> (p: usize)
        requires
            from <= self@.len(),
        ensures
            p == insert_pos::<I, V::V>(self@, from as int, id@),
            from <= p <= self@.len(),
    {
        let ghost s = self@;
        let mut p: usize = from;
        loop
            invariant
                from <= p <= s.len(),
                insert_pos::<I, V::V>(s, from as int, id@) == insert_pos::<I, V::V>(
                    s,
                    p as int,
                    id@,
                ),
            decreases s.len() - p,
        {
            if p == self.elements.len() {
                return p;
            }
            proof {
                assert(s[p as int].0 == self.elements@[p as int].0@);
            }
            if self.elements[p].0.lt(id) {
                return p;
            }
            p = p + 1;
        }
    }

    /// The index of the first element at or past `from` whose id equals
    /// `id`, or the length.
    #[verifier::loop_isolation(false)]
    fn scan_find_index(&self, from: usize, id: &I) -> (p: usize)
        requires
            from <= self@.len(),
        ensures
            p == find_index::<I, V::V>(self@, from as int, id@),
            from <= p <= self@.len(),
    {
        let ghost s = self@;
        let mut p: usize = from;
        loop
            invariant
                from <= p <= s.len(),
                find_index::<I, V::V>(s, from as int, id@) == find_index::<I, V::V>(
                    s,
                    p as int,
                    id@,
                ),
            decreases s.len() - p,
        {
            if p == self.elements.len() {
                return p;
            }
            proof {
                assert(s[p as int].0 == self.elements@[p as int].0@);
            }
            if self.elements[p].0.key_eq(id) {
                return p;
            }
            p = p + 1;
        }
    }

    /// Splice `(id, value)` in: from the head when `after` is `None`, else
    /// from just past the reference element, in both cases before the first
    /// element whose id is strictly less than `id`.  Returns `None`, and
    /// changes nothing, when the reference id is absent.
    pub fn insert_by_id(&mut self, id: I, value: V, after: Option<I>) -> (r: Option<()>)
        ensures
            final(self)@ == spec_insert::<I, V::V>(old(self)@, id@, value@, opt_view(after)),
            r is Some <==> insert_applies::<I, V::V>(old(self)@, opt_view(after)),
    {
        let ghost s = self@;
        let from: usize = match &after {
            None => 0,
            Some(a) => {
                let j = self.scan_find_index(0, a);
                if j == self.elements.len() {
                    return None;
                }
                j + 1
            },
        };
        let p = self.scan_insert_pos(from, &id);
        let ghost prev = self.elements@;
        self.elements.insert(p, (id, value, false));
        proof {
            assert forall|k: int|
                0 <= k < self@.len() implies self@[k] == s.insert(
                p as int,
                (self.elements@[p as int].0@, self.elements@[p as int].1@, false),
            )[k] by {
                if k < p {
                    assert(self.elements@[k] == prev[k]);
                } else if k > p {
                    assert(self.elements@[k] == prev[k - 1]);
                }
            }
            assert(self@ =~= s.insert(
                p as int,
                (self.elements@[p as int].0@, self.elements@[p as int].1@, false),
            ));
        }
        Some(())
    }

    /// Mark the first element with this id deleted; `None` when absent.
    pub fn delete_by_id(&mut self, id: I) -> (r: Option<()>)
        ensures
            final(self)@ == spec_delete::<I, V::V>(old(self)@, id@),
            r is Some <==> find_index::<I, V::V>(old(self)@, 0, id@) < old(self)@.len(),
    {
        let ghost s = self@;
        let j = self.scan_find_index(0, &id);
        if j == self.elements.len() {
            return None;
        }
        let ghost prev = self.elements@;
        let entry = self.elements.remove(j);
        let replaced = (entry.0, entry.1, true);
        self.elements.insert(j, replaced);
        proof {
            assert forall|k: int|
                0 <= k < self@.len() implies self@[k] == s.update(
                j as int,
                (s[j as int].0, s[j as int].1, true),
            )[k] by {
                if k < j {
                    assert(self.elements@[k] == prev[k]);
                } else if k > j {
                    assert(self.elements@[k] == prev.remove(j as int).insert(j as int, replaced)[k]);
                    assert(prev.remove(j as int)[k - 1] == prev[k]);
                }
            }
            assert(self@ =~= s.update(j as int, (s[j as int].0, s[j as int].1, true)));
        }
        Some(())
    }

    /// The first element with this id, flag included.
    pub fn get_by_id(&self, id: I) -> (r: Option<(I, V, bool)>)
        ensures
            r is Some <==> find_index::<I, V::V>(self@, 0, id@) < self@.len(),
            r matches Some(e) ==> (e.0@, e.1@, e.2) == self@[find_index::<I, V::V>(self@, 0, id@)],
    {
        let j = self.scan_find_index(0, &id);
        if j == self.elements.len() {
            return None;
        }
        let e = &self.elements[j];
        proof {
            assert(self@[j as int] == (e.0@, e.1@, e.2));
        }
        Some((e.0.dup(), e.1.dup(), e.2))
    }

    /// The element at visible index `idx`: the `idx`-th element whose
    /// deleted flag is clear.
    #[verifier::loop_isolation(false)]
    pub fn get_by_idx(&self, idx: usize) -> (r: Option<(I, V, bool)>)
        ensures
            r is Some <==> idx < visible(self@).len(),
            r matches Some(e) ==> (e.0@, e.1@, e.2) == visible(self@)[idx as int],
    {
        let ghost s = self@;
        let mut i: usize = 0;
        let mut count: usize = 0;
        while i < self.elements.len()
            invariant
                0 <= i <= s.len(),
                count == visible(s.take(i as int)).len(),
                visible(s.take(i as int)) == visible(s).take(count as int),
                count <= idx,
            decreases s.len() - i,
        {
            let e = &self.elements[i];
            proof {
                assert(s.take(i + 1).drop_last() =~= s.take(i as int));
                assert(s.take(i + 1) =~= s.take(i as int).push(s[i as int]));
                lemma_visible_push(s.take(i as int), s[i as int]);
                assert(s[i as int] == (e.0@, e.1@, e.2));
                lemma_visible_prefix(s, i + 1);
            }
            if !e.2 {
                if count == idx {
                    proof {
                        assert(visible(s.take(i + 1)) == visible(s.take(i as int)).push(
                            s[i as int],
                        ));
                        assert(visible(s.take(i + 1)).len() == count + 1);
                        assert(visible(s.take(i + 1)) == visible(s).take((count + 1) as int));
                        assert(visible(s).take((count + 1) as int).last() == s[i as int]);
                        assert(visible(s)[idx as int] == s[i as int]);
                    }
                    return Some((e.0.dup(), e.1.dup(), e.2));
                }
                count = count + 1;
            }
            i = i + 1;
        }
        proof {
            assert(s.take(s.len() as int) =~= s);
            assert(visible(s).len() == count);
        }
        None
    }

    /// Mark the element at visible index `idx` deleted; the entry stays in
    /// the list as a tombstone.
    #[verifier::loop_isolation(false)]
    pub fn delete_by_idx(&mut self, idx: usize) -> (r: Option<()>)
        ensures
            r is Some <==> idx < visible(old(self)@).len(),
            idx >= visible(old(self)@).len() ==> final(self)@ == old(self)@,
            r is Some ==> exists|j: int|
                0 <= j < old(self)@.len() && (#[trigger] old(self)@[j]) == visible(old(self)@)[
                    idx as int] && !old(self)@[j].2 && visible(old(self)@.take(j)).len() == idx
                    && final(self)@ == old(self)@.update(
                    j,
                    (old(self)@[j].0, old(self)@[j].1, true),
                ),
    {
        let ghost s = self@;
        let mut i: usize = 0;
        let mut count: usize = 0;
        while i < self.elements.len()
            invariant
                0 <= i <= s.len(),
                count == visible(s.take(i as int)).len(),
                visible(s.take(i as int)) == visible(s).take(count as int),
                count <= idx,
                self@ == s,
            decreases s.len() - i,
        {
            proof {
                assert(s.take(i + 1).drop_last() =~= s.take(i as int));
                assert(s.take(i + 1) =~= s.take(i as int).push(s[i as int]));
                lemma_visible_push(s.take(i as int), s[i as int]);
                lemma_visible_prefix(s, i + 1);
            }
            let deleted = self.elements[i].2;
            proof {
                assert(deleted == s[i as int].2);
            }
            if !deleted {
                if count == idx {
                    let ghost prev = self.elements@;
                    let entry = self.elements.remove(i);
                    let replaced = (entry.0, entry.1, true);
                    self.elements.insert(i, replaced);
                    proof {
                        assert forall|k: int|
                            0 <= k < self@.len() implies self@[k] == s.update(
                            i as int,
                            (s[i as int].0, s[i as int].1, true),
                        )[k] by {
                            if k < i {
                                assert(self.elements@[k] == prev[k]);
                            } else if k > i {
                                assert(self.elements@[k] == prev.remove(i as int).insert(
                                    i as int,
                                    replaced,
                                )[k]);
                                assert(prev.remove(i as int)[k - 1] == prev[k]);
                            }
                        }
                        assert(self@ =~= s.update(i as int, (s[i as int].0, s[i as int].1, true)));
                        assert(visible(s.take(i + 1)) == visible(s.take(i as int)).push(
                            s[i as int],
                        ));
                        assert(visible(s.take(i + 1)) == visible(s).take((count + 1) as int));
                        assert(visible(s).take((count + 1) as int).last() == s[i as int]);
                        assert(visible(s)[idx as int] == s[i as int]);
                    }
                    return Some(());
                }
                count = count + 1;
            }
            i = i + 1;
        }
        proof {
            assert(s.take(s.len() as int) =~= s);
            assert(visible(s).len() == count);
        }
        None
    }

    /// The values of the elements that are not deleted, in list order.
    #[verifier::loop_isolation(false)]
    pub fn get_list(&self) -> (r: Vec<V>)
        ensures
            crate::serialize::views_of(r@) == visible_values(self@),
    {
        let ghost s = self@;
        let mut r: Vec<V> = Vec::new();
        let mut i: usize = 0;
        while i < self.elements.len()
            invariant
                0 <= i <= s.len(),
                crate::serialize::views_of(r@) == visible_values(s.take(i as int)),
            decreases s.len() - i,
        {
            let e = &self.elements[i];
            proof {
                assert(s.take(i + 1).drop_last() =~= s.take(i as int));
                assert(s.take(i + 1) =~= s.take(i as int).push(s[i as int]));
                lemma_visible_push(s.take(i as int), s[i as int]);
                assert(s[i as int] == (e.0@, e.1@, e.2));
            }
            if !e.2 {
                let ghost prevr = r@;
                r.push(e.1.dup());
                proof {
                    assert(crate::serialize::views_of(r@) =~= crate::serialize::views_of(
                        prevr,
                    ).push(e.1@));
                    assert(visible_values(s.take(i + 1)) =~= visible_values(
                        s.take(i as int),
                    ).push(s[i as int].1));
                }
            } else {
                proof {
                    assert(visible_values(s.take(i + 1)) =~= visible_values(s.take(i as int)));
                }
            }
            i = i + 1;
        }
        proof {
            assert(s.take(s.len() as int) =~= s);
        }
        r
    }
}

/// The list after an insert that appends when there is no reference and
/// otherwise follows the ordered rule from just past the reference.
pub open spec fn spec_insert_old<I: ListKey, VV>(
    s: Seq<(I::V, VV, bool)>,
    id: I::V,
    v: VV,
    after: Option<I::V>,
) -> Seq<(I::V, VV, bool)> {
    match after {
        None => s.push((id, v, false)),
        Some(a) => {
            let j = find_index::<I, VV>(s, 0, a);
            if j < s.len() {
                s.insert(insert_pos::<I, VV>(s, j + 1, id), (id, v, false))
            } else {
                s
            }
        },
    }
}

impl<I: ListKey + DupValue, V: DupValue> OrderedList<I, V> {
    /// Append when `after` is `None`; otherwise splice past the reference
    /// element by the ordered rule.  Returns `None`, and changes nothing,
    /// when the reference id is absent.
    pub fn insert(&mut self, id: I, value: V, after: Option<I>) -> (r: Option<()>)
        ensures
            final(self)@ == spec_insert_old::<I, V::V>(old(self)@, id@, value@, opt_view(after)),
            r is Some <==> insert_applies::<I, V::V>(old(self)@, opt_view(after)),
    {
        let ghost s = self@;
        match after {
            None => {
                self.elements.push((id, value, false));
                proof {
                    assert(self@ =~= s.push(
                        (self.elements@.last().0@, self.elements@.last().1@, false),
                    ));
                }
                Some(())
            },
            Some(a) => self.insert_by_id(id, value, Some(a)),
        }
    }

    /// Mark the first element with this id deleted; `None` when absent.
    pub fn delete(&mut self, id: I) -> (r: Option<()>)
        ensures
            final(self)@ == spec_delete::<I, V::V>(old(self)@, id@),
            r is Some <==> find_index::<I, V::V>(old(self)@, 0, id@) < old(self)@.len(),
    {
        self.delete_by_id(id)
    }

    /// The value at visible index `idx`.
    pub fn get(&self, idx: usize) -> (r: Option<V>)
        ensures
            r is Some <==> idx < visible(self@).len(),
            r matches Some(v) ==> v@ == visible(self@)[idx as int].1,
    {
        match self.get_by_idx(idx) {
            None => None,
            Some(e) => Some(e.1),
        }
    }
}

/// What `insert_pos` returns: the first index at or past `from` whose id is
/// strictly less than `id`, or the length.
pub proof fn lemma_insert_pos_spec<I: ListKey, VV>(s: Seq<(I::V, VV, bool)>, from: int, id: I::V)
    requires
        0 <= from <= s.len(),
    ensures
        from <= insert_pos::<I, VV>(s, from, id) <= s.len(),
        forall|k: int|
            from <= k < insert_pos::<I, VV>(s, from, id) ==> !I::key_lt((#[trigger] s[k]).0, id),
        insert_pos::<I, VV>(s, from, id) < s.len() ==> I::key_lt(
            s[insert_pos::<I, VV>(s, from, id)].0,
            id,
        ),
    decreases s.len() - from,
{
    if from < s.len() && !I::key_lt(s[from].0, id) {
        lemma_insert_pos_spec::<I, VV>(s, from + 1, id);
    }
}

/// Any index with the first-strictly-less property is `insert_pos`.
pub proof fn lemma_insert_pos_from_props<I: ListKey, VV>(
    s: Seq<(I::V, VV, bool)>,
    from: int,
    id: I::V,
    p: int,
)
    requires
        0 <= from <= p <= s.len(),
        forall|k: int| from <= k < p ==> !I::key_lt((#[trigger] s[k]).0, id),
        p < s.len() ==> I::key_lt(s[p].0, id),
    ensures
        insert_pos::<I, VV>(s, from, id) == p,
    decreases s.len() - from,
{
    if from < p {
        lemma_insert_pos_from_props::<I, VV>(s, from + 1, id, p);
    }
}

/// What `find_index` returns: the first match at or past `from`, or the
/// length.
pub proof fn lemma_find_index_spec<I: ListKey, VV>(s: Seq<(I::V, VV, bool)>, from: int, id: I::V)
    requires
        0 <= from <= s.len(),
    ensures
        from <= find_index::<I, VV>(s, from, id) <= s.len(),
        forall|k: int|
            from <= k < find_index::<I, VV>(s, from, id) ==> (#[trigger] s[k]).0 != id,
        find_index::<I, VV>(s, from, id) < s.len() ==> s[find_index::<I, VV>(s, from, id)].0
            == id,
    decreases s.len() - from,
{
    if from < s.len() && s[from].0 != id {
        lemma_find_index_spec::<I, VV>(s, from + 1, id);
    }
}

/// Any index with the first-match property is `find_index`.
pub proof fn lemma_find_index_from_props<I: ListKey, VV>(
    s: Seq<(I::V, VV, bool)>,
    from: int,
    id: I::V,
    p: int,
)
    requires
        0 <= from <= p <= s.len(),
        forall|k: int| from <= k < p ==> (#[trigger] s[k]).0 != id,
        p < s.len() ==> s[p].0 == id,
    ensures
        find_index::<I, VV>(s, from, id) == p,
    decreases s.len() - from,
{
    if from < p {
        lemma_find_index_from_props::<I, VV>(s, from + 1, id, p);
    }
}

/// The strict order is asymmetric.
proof fn lemma_key_asym<I: ListKey>(a: I::V, b: I::V)
    requires
        I::key_lt(a, b),
    ensures
        !I::key_lt(b, a),
{
    if I::key_lt(b, a) {
        I::lemma_key_order(a, b, a);
        I::lemma_key_order(a, a, a);
    }
}

/// The core of insert commutativity: scanning from the same start, two
/// inserts with distinct ids land in the same relative arrangement whichever
/// goes first, and the one with the larger id sits earlier.
proof fn lemma_insert_commute_core<I: ListKey, VV>(
    s: Seq<(I::V, VV, bool)>,
    from: int,
    id1: I::V,
    v1: VV,
    id2: I::V,
    v2: VV,
)
    requires
        0 <= from <= s.len(),
        I::key_lt(id2, id1),
    ensures
        ({
            let p1 = insert_pos::<I, VV>(s, from, id1);
            let s1 = s.insert(p1, (id1, v1, false));
            let p2 = insert_pos::<I, VV>(s, from, id2);
            let s2 = s.insert(p2, (id2, v2, false));
            &&& p1 <= p2
            &&& insert_pos::<I, VV>(s1, from, id2) == p2 + 1
            &&& insert_pos::<I, VV>(s2, from, id1) == p1
            &&& s1.insert(p2 + 1, (id2, v2, false)) == s2.insert(p1, (id1, v1, false))
        }),
{
    let e1 = (id1, v1, false);
    let e2 = (id2, v2, false);
    let p1 = insert_pos::<I, VV>(s, from, id1);
    let p2 = insert_pos::<I, VV>(s, from, id2);
    lemma_insert_pos_spec::<I, VV>(s, from, id1);
    lemma_insert_pos_spec::<I, VV>(s, from, id2);
    lemma_key_asym::<I>(id2, id1);
    // p1 <= p2: anything strictly below id2 is strictly below id1
    assert(p1 <= p2) by {
        if p2 < p1 {
            assert(I::key_lt(s[p2].0, id2));
            I::lemma_key_order(s[p2].0, id2, id1);
            assert(I::key_lt(s[p2].0, id1));
            assert(!I::key_lt(s[p2].0, id1));
        }
    }
    let s1 = s.insert(p1, e1);
    let s2 = s.insert(p2, e2);
    // inserting the larger id first pushes the smaller one past it
    assert forall|k: int| from <= k < p2 + 1 implies !I::key_lt((#[trigger] s1[k]).0, id2) by {
        if k < p1 {
            assert(s1[k] == s[k]);
            if I::key_lt(s[k].0, id2) {
                I::lemma_key_order(s[k].0, id2, id1);
            }
        } else if k == p1 {
            assert(s1[k] == e1);
        } else {
            assert(s1[k] == s[k - 1]);
        }
    }
    if p2 < s.len() {
        assert(s1[p2 + 1] == s[p2]);
    }
    lemma_insert_pos_from_props::<I, VV>(s1, from, id2, p2 + 1);
    // inserting the smaller id first does not move the larger one's place
    assert forall|k: int| from <= k < p1 implies !I::key_lt((#[trigger] s2[k]).0, id1) by {
        assert(s2[k] == s[k]);
    }
    if p1 < s2.len() {
        if p1 < p2 {
            assert(s2[p1] == s[p1]);
            assert(p1 < s.len());
            assert(I::key_lt(s2[p1].0, id1));
        } else {
            assert(s2[p1] == e2);
            assert(I::key_lt(s2[p1].0, id1));
        }
    }
    lemma_insert_pos_from_props::<I, VV>(s2, from, id1, p1);
    assert(s1.insert(p2 + 1, e2) =~= s2.insert(p1, e1)) by {
        assert forall|k: int|
            0 <= k < s1.insert(p2 + 1, e2).len() implies s1.insert(p2 + 1, e2)[k] == s2.insert(
            p1,
            e1,
        )[k] by {
            if k < p1 {
                assert(s1.insert(p2 + 1, e2)[k] == s[k]);
                assert(s2.insert(p1, e1)[k] == s[k]);
            } else if k == p1 {
                assert(s1.insert(p2 + 1, e2)[k] == e1);
                assert(s2.insert(p1, e1)[k] == e1);
            } else if k < p2 + 1 {
                assert(s1.insert(p2 + 1, e2)[k] == s1[k]);
                assert(s1[k] == s[k - 1]);
                assert(s2.insert(p1, e1)[k] == s2[k - 1]);
                assert(s2[k - 1] == s[k - 1]);
            } else if k == p2 + 1 {
                assert(s1.insert(p2 + 1, e2)[k] == e2);
                assert(s2.insert(p1, e1)[k] == s2[k - 1]);
                assert(s2[k - 1] == e2);
            } else {
                assert(s1.insert(p2 + 1, e2)[k] == s1[k - 1]);
                assert(s1[k - 1] == s[k - 2]);
                assert(s2.insert(p1, e1)[k] == s2[k - 1]);
                assert(s2[k - 1] == s[k - 2]);
            }
        }
    }
}

/// Insert commutativity: two inserts with distinct ids and the same
/// reference produce the same list in either order, and when the reference
/// applies the element with the larger id ends up earlier: the result is the
/// smaller-id insert's list with the larger id spliced in front of it.
pub proof fn lemma_insert_commutes<I: ListKey, VV>(
    s: Seq<(I::V, VV, bool)>,
    id1: I::V,
    v1: VV,
    id2: I::V,
    v2: VV,
    after: Option<I::V>,
)
    requires
        id1 != id2,
    ensures
        spec_insert::<I, VV>(spec_insert::<I, VV>(s, id1, v1, after), id2, v2, after)
            == spec_insert::<I, VV>(spec_insert::<I, VV>(s, id2, v2, after), id1, v1, after),
        (I::key_lt(id2, id1) && insert_applies::<I, VV>(s, after)) ==> ({
            let from = match after {
                None => 0,
                Some(a) => find_index::<I, VV>(s, 0, a) + 1,
            };
            let p1 = insert_pos::<I, VV>(s, from, id1);
            let p2 = insert_pos::<I, VV>(s, from, id2);
            &&& p1 <= p2
            &&& spec_insert::<I, VV>(spec_insert::<I, VV>(s, id1, v1, after), id2, v2, after)
                == s.insert(p1, (id1, v1, false)).insert(p2 + 1, (id2, v2, false))
        }),
{
    I::lemma_key_order(id1, id2, id2);
    if I::key_lt(id2, id1) {
        lemma_insert_commutes_ordered::<I, VV>(s, id1, v1, id2, v2, after);
    } else {
        assert(I::key_lt(id1, id2));
        lemma_insert_commutes_ordered::<I, VV>(s, id2, v2, id1, v1, after);
    }
}

/// The ordered case of insert commutativity: `id1` is the larger id.
proof fn lemma_insert_commutes_ordered<I: ListKey, VV>(
    s: Seq<(I::V, VV, bool)>,
    id1: I::V,
    v1: VV,
    id2: I::V,
    v2: VV,
    after: Option<I::V>,
)
    requires
        I::key_lt(id2, id1),
    ensures
        spec_insert::<I, VV>(spec_insert::<I, VV>(s, id1, v1, after), id2, v2, after)
            == spec_insert::<I, VV>(spec_insert::<I, VV>(s, id2, v2, after), id1, v1, after),
        insert_applies::<I, VV>(s, after) ==> ({
            let from = match after {
                None => 0,
                Some(a) => find_index::<I, VV>(s, 0, a) + 1,
            };
            let p1 = insert_pos::<I, VV>(s, from, id1);
            let p2 = insert_pos::<I, VV>(s, from, id2);
            &&& p1 <= p2
            &&& spec_insert::<I, VV>(spec_insert::<I, VV>(s, id1, v1, after), id2, v2, after)
                == s.insert(p1, (id1, v1, false)).insert(p2 + 1, (id2, v2, false))
        }),
{
    let e1 = (id1, v1, false);
    let e2 = (id2, v2, false);
    match after {
        None => {
            lemma_insert_commute_core::<I, VV>(s, 0, id1, v1, id2, v2);
        },
        Some(a) => {
            let j = find_index::<I, VV>(s, 0, a);
            lemma_find_index_spec::<I, VV>(s, 0, a);
            if j == s.len() {
                // the reference is absent: both inserts are no-ops, in
                // either order
                assert(spec_insert::<I, VV>(s, id1, v1, after) == s);
                assert(spec_insert::<I, VV>(s, id2, v2, after) == s);
            } else {
                lemma_insert_commute_core::<I, VV>(s, j + 1, id1, v1, id2, v2);
                let p1 = insert_pos::<I, VV>(s, j + 1, id1);
                let p2 = insert_pos::<I, VV>(s, j + 1, id2);
                lemma_insert_pos_spec::<I, VV>(s, j + 1, id1);
                lemma_insert_pos_spec::<I, VV>(s, j + 1, id2);
                let s1 = s.insert(p1, e1);
                let s2 = s.insert(p2, e2);
                // the reference is still found at the same spot after
                // either insert, because both land past it
                assert forall|k: int| 0 <= k < j implies (#[trigger] s1[k]).0 != a by {
                    assert(s1[k] == s[k]);
                }
                assert(s1[j] == s[j]);
                lemma_find_index_from_props::<I, VV>(s1, 0, a, j);
                assert forall|k: int| 0 <= k < j implies (#[trigger] s2[k]).0 != a by {
                    assert(s2[k] == s[k]);
                }
                assert(s2[j] == s[j]);
                lemma_find_index_from_props::<I, VV>(s2, 0, a, j);
            }
        },
    }
}

/// `find_index` only looks at ids, so it agrees on lists with the same ids.
proof fn lemma_find_index_same_ids<I: ListKey, VV>(
    s1: Seq<(I::V, VV, bool)>,
    s2: Seq<(I::V, VV, bool)>,
    from: int,
    id: I::V,
)
    requires
        s1.len() == s2.len(),
        0 <= from <= s1.len(),
        forall|k: int| 0 <= k < s1.len() ==> (#[trigger] s1[k]).0 == s2[k].0,
    ensures
        find_index::<I, VV>(s1, from, id) == find_index::<I, VV>(s2, from, id),
    decreases s1.len() - from,
{
    if from < s1.len() && s1[from].0 != id {
        lemma_find_index_same_ids::<I, VV>(s1, s2, from + 1, id);
    }
}

/// `insert_pos` only looks at ids, so it agrees on lists with the same ids.
proof fn lemma_insert_pos_same_ids<I: ListKey, VV>(
    s1: Seq<(I::V, VV, bool)>,
    s2: Seq<(I::V, VV, bool)>,
    from: int,
    id: I::V,
)
    requires
        s1.len() == s2.len(),
        0 <= from <= s1.len(),
        forall|k: int| 0 <= k < s1.len() ==> (#[trigger] s1[k]).0 == s2[k].0,
    ensures
        insert_pos::<I, VV>(s1, from, id) == insert_pos::<I, VV>(s2, from, id),
    decreases s1.len() - from,
{
    if from < s1.len() && !I::key_lt(s1[from].0, id) {
        lemma_insert_pos_same_ids::<I, VV>(s1, s2, from + 1, id);
    }
}

/// Where the first match sits after an insert of a non-matching element:
/// the same element, shifted when the insert lands at or before it.
proof fn lemma_find_index_insert<I: ListKey, VV>(
    s: Seq<(I::V, VV, bool)>,
    p: int,
    e: (I::V, VV, bool),
    a: I::V,
)
    requires
        0 <= p <= s.len(),
        e.0 != a,
    ensures
        find_index::<I, VV>(s.insert(p, e), 0, a) == if find_index::<I, VV>(s, 0, a) < p {
            find_index::<I, VV>(s, 0, a)
        } else {
            find_index::<I, VV>(s, 0, a) + 1
        },
{
    let j = find_index::<I, VV>(s, 0, a);
    lemma_find_index_spec::<I, VV>(s, 0, a);
    let s2 = s.insert(p, e);
    if j < p {
        assert forall|k: int| 0 <= k < j implies (#[trigger] s2[k]).0 != a by {
            assert(s2[k] == s[k]);
        }
        assert(s2[j] == s[j]);
        lemma_find_index_from_props::<I, VV>(s2, 0, a, j);
    } else {
        assert forall|k: int| 0 <= k < j + 1 implies (#[trigger] s2[k]).0 != a by {
            if k < p {
                assert(s2[k] == s[k]);
            } else if k == p {
                assert(s2[k] == e);
            } else {
                assert(s2[k] == s[k - 1]);
            }
        }
        if j < s.len() {
            assert(s2[j + 1] == s[j]);
        }
        lemma_find_index_from_props::<I, VV>(s2, 0, a, j + 1);
    }
}

/// Where the splice point sits after an insert: unchanged when the insert
/// lands past it, shifted when it lands before the scan start, and decided
/// by the inserted id when it lands inside the scanned stretch.
proof fn lemma_insert_pos_insert<I: ListKey, VV>(
    s: Seq<(I::V, VV, bool)>,
    p: int,
    e: (I::V, VV, bool),
    f: int,
    id: I::V,
)
    requires
        0 <= p <= s.len(),
        0 <= f <= s.len(),
    ensures
        ({
            let p0 = insert_pos::<I, VV>(s, f, id);
            let f2 = if p < f {
                f + 1
            } else {
                f
            };
            insert_pos::<I, VV>(s.insert(p, e), f2, id) == (if p < f {
                p0 + 1
            } else if p > p0 {
                p0
            } else if I::key_lt(e.0, id) {
                p
            } else {
                p0 + 1
            })
        }),
{
    let p0 = insert_pos::<I, VV>(s, f, id);
    lemma_insert_pos_spec::<I, VV>(s, f, id);
    let s2 = s.insert(p, e);
    if p < f {
        assert forall|k: int| f + 1 <= k < p0 + 1 implies !I::key_lt((#[trigger] s2[k]).0, id) by {
            assert(s2[k] == s[k - 1]);
        }
        if p0 < s.len() {
            assert(s2[p0 + 1] == s[p0]);
        }
        lemma_insert_pos_from_props::<I, VV>(s2, f + 1, id, p0 + 1);
    } else if p > p0 {
        assert forall|k: int| f <= k < p0 implies !I::key_lt((#[trigger] s2[k]).0, id) by {
            assert(s2[k] == s[k]);
        }
        assert(s2[p0] == s[p0]);
        lemma_insert_pos_from_props::<I, VV>(s2, f, id, p0);
    } else if I::key_lt(e.0, id) {
        assert forall|k: int| f <= k < p implies !I::key_lt((#[trigger] s2[k]).0, id) by {
            assert(s2[k] == s[k]);
        }
        assert(s2[p] == e);
        lemma_insert_pos_from_props::<I, VV>(s2, f, id, p);
    } else {
        assert forall|k: int| f <= k < p0 + 1 implies !I::key_lt((#[trigger] s2[k]).0, id) by {
            if k < p {
                assert(s2[k] == s[k]);
            } else if k == p {
                assert(s2[k] == e);
            } else {
                assert(s2[k] == s[k - 1]);
            }
        }
        if p0 < s.len() {
            assert(s2[p0 + 1] == s[p0]);
        }
        lemma_insert_pos_from_props::<I, VV>(s2, f, id, p0 + 1);
    }
}

/// Splicing at `p` and then at `q + 1` is splicing at `q` and then at `p`,
/// for `p` at or before `q`.
proof fn lemma_insert_insert_swap<IV, VV>(
    s: Seq<(IV, VV, bool)>,
    p: int,
    e1: (IV, VV, bool),
    q: int,
    e2: (IV, VV, bool),
)
    requires
        0 <= p <= q <= s.len(),
    ensures
        s.insert(p, e1).insert(q + 1, e2) == s.insert(q, e2).insert(p, e1),
{
    let l = s.insert(p, e1).insert(q + 1, e2);
    let r = s.insert(q, e2).insert(p, e1);
    assert forall|k: int| 0 <= k < l.len() implies l[k] == r[k] by {
        if k < p {
            assert(l[k] == s[k]);
            assert(r[k] == s[k]);
        } else if k == p {
            assert(l[k] == e1);
            assert(r[k] == e1);
        } else if k < q + 1 {
            assert(l[k] == s.insert(p, e1)[k]);
            assert(s.insert(p, e1)[k] == s[k - 1]);
            assert(r[k] == s.insert(q, e2)[k - 1]);
            assert(s.insert(q, e2)[k - 1] == s[k - 1]);
        } else if k == q + 1 {
            assert(l[k] == e2);
            assert(r[k] == s.insert(q, e2)[k - 1]);
            assert(s.insert(q, e2)[k - 1] == e2);
        } else {
            assert(l[k] == s.insert(p, e1)[k - 1]);
            assert(s.insert(p, e1)[k - 1] == s[k - 2]);
            assert(r[k] == s.insert(q, e2)[k - 1]);
            assert(s.insert(q, e2)[k - 1] == s[k - 2]);
        }
    }
    assert(l =~= r);
}

/// Insert commutativity in general: two inserts with distinct ids, each id
/// different from the other's reference id, produce the same list in either
/// order, whatever their references.
pub proof fn lemma_insert_commutes_general<I: ListKey, VV>(
    s: Seq<(I::V, VV, bool)>,
    id1: I::V,
    v1: VV,
    a1: Option<I::V>,
    id2: I::V,
    v2: VV,
    a2: Option<I::V>,
)
    requires
        id1 != id2,
        a1 matches Some(x) ==> x != id2,
        a2 matches Some(y) ==> y != id1,
    ensures
        spec_insert::<I, VV>(spec_insert::<I, VV>(s, id1, v1, a1), id2, v2, a2) == spec_insert::<
            I,
            VV,
        >(spec_insert::<I, VV>(s, id2, v2, a2), id1, v1, a1),
{
    let e1 = (id1, v1, false);
    let e2 = (id2, v2, false);
    if !insert_applies::<I, VV>(s, a1) {
        // the first reference is absent: that insert is a no-op in either
        // order, since the other insert cannot supply a matching id
        let a = a1->0;
        lemma_find_index_spec::<I, VV>(s, 0, a);
        assert(spec_insert::<I, VV>(s, id1, v1, a1) == s);
        let s2 = spec_insert::<I, VV>(s, id2, v2, a2);
        match a2 {
            None => {
                lemma_insert_pos_spec::<I, VV>(s, 0, id2);
                lemma_find_index_insert::<I, VV>(s, insert_pos::<I, VV>(s, 0, id2), e2, a);
                assert(spec_insert::<I, VV>(s2, id1, v1, a1) == s2);
            },
            Some(b) => {
                lemma_find_index_spec::<I, VV>(s, 0, b);
                let j2 = find_index::<I, VV>(s, 0, b);
                if j2 < s.len() {
                    lemma_insert_pos_spec::<I, VV>(s, j2 + 1, id2);
                    lemma_find_index_insert::<I, VV>(
                        s,
                        insert_pos::<I, VV>(s, j2 + 1, id2),
                        e2,
                        a,
                    );
                }
                assert(spec_insert::<I, VV>(s2, id1, v1, a1) == s2);
            },
        }
    } else if !insert_applies::<I, VV>(s, a2) {
        let a = a2->0;
        lemma_find_index_spec::<I, VV>(s, 0, a);
        assert(spec_insert::<I, VV>(s, id2, v2, a2) == s);
        let s1 = spec_insert::<I, VV>(s, id1, v1, a1);
        match a1 {
            None => {
                lemma_insert_pos_spec::<I, VV>(s, 0, id1);
                lemma_find_index_insert::<I, VV>(s, insert_pos::<I, VV>(s, 0, id1), e1, a);
                assert(spec_insert::<I, VV>(s1, id2, v2, a2) == s1);
            },
            Some(b) => {
                lemma_find_index_spec::<I, VV>(s, 0, b);
                let j1 = find_index::<I, VV>(s, 0, b);
                if j1 < s.len() {
                    lemma_insert_pos_spec::<I, VV>(s, j1 + 1, id1);
                    lemma_find_index_insert::<I, VV>(
                        s,
                        insert_pos::<I, VV>(s, j1 + 1, id1),
                        e1,
                        a,
                    );
                }
                assert(spec_insert::<I, VV>(s1, id2, v2, a2) == s1);
            },
        }
    } else {
        lemma_insert_commutes_applied::<I, VV>(s, id1, v1, a1, id2, v2, a2);
    }
}

/// The two-sided case of general insert commutativity: both references
/// resolve, and both inserts land.
proof fn lemma_insert_commutes_applied<I: ListKey, VV>(
    s: Seq<(I::V, VV, bool)>,
    id1: I::V,
    v1: VV,
    a1: Option<I::V>,
    id2: I::V,
    v2: VV,
    a2: Option<I::V>,
)
    requires
        id1 != id2,
        a1 matches Some(x) ==> x != id2,
        a2 matches Some(y) ==> y != id1,
        insert_applies::<I, VV>(s, a1),
        insert_applies::<I, VV>(s, a2),
    ensures
        spec_insert::<I, VV>(spec_insert::<I, VV>(s, id1, v1, a1), id2, v2, a2) == spec_insert::<
            I,
            VV,
        >(spec_insert::<I, VV>(s, id2, v2, a2), id1, v1, a1),
{
    let e1 = (id1, v1, false);
    let e2 = (id2, v2, false);
    let f1: int = match a1 {
        None => 0,
        Some(a) => {
            lemma_find_index_spec::<I, VV>(s, 0, a);
            find_index::<I, VV>(s, 0, a) + 1
        },
    };
    let f2: int = match a2 {
        None => 0,
        Some(a) => {
            lemma_find_index_spec::<I, VV>(s, 0, a);
            find_index::<I, VV>(s, 0, a) + 1
        },
    };
    assert(0 <= f1 <= s.len());
    assert(0 <= f2 <= s.len());
    let p1 = insert_pos::<I, VV>(s, f1, id1);
    let p2 = insert_pos::<I, VV>(s, f2, id2);
    lemma_insert_pos_spec::<I, VV>(s, f1, id1);
    lemma_insert_pos_spec::<I, VV>(s, f2, id2);
    let s1 = s.insert(p1, e1);
    let s2 = s.insert(p2, e2);
    assert(spec_insert::<I, VV>(s, id1, v1, a1) == s1);
    assert(spec_insert::<I, VV>(s, id2, v2, a2) == s2);
    // the second scan of each order starts at the (possibly shifted) same
    // reference, so its start and stop follow the shift rules
    match a2 {
        None => {},
        Some(a) => {
            lemma_find_index_insert::<I, VV>(s, p1, e1, a);
        },
    }
    match a1 {
        None => {},
        Some(a) => {
            lemma_find_index_insert::<I, VV>(s, p2, e2, a);
        },
    }
    lemma_insert_pos_insert::<I, VV>(s, p1, e1, f2, id2);
    lemma_insert_pos_insert::<I, VV>(s, p2, e2, f1, id1);
    let p2a = insert_pos::<I, VV>(s1, if p1 < f2 { f2 + 1 } else { f2 }, id2);
    let p1b = insert_pos::<I, VV>(s2, if p2 < f1 { f1 + 1 } else { f1 }, id1);
    assert(spec_insert::<I, VV>(s1, id2, v2, a2) == s1.insert(p2a, e2));
    assert(spec_insert::<I, VV>(s2, id1, v1, a1) == s2.insert(p1b, e1));
    if p1 < f2 && p2 < f1 {
        assert(false);
    } else if p1 < f2 {
        assert(p2 >= f2);
        assert(p1 < p2);
        assert(p2a == p2 + 1);
        assert(p1b == p1);
        lemma_insert_insert_swap(s, p1, e1, p2, e2);
    } else if p2 < f1 {
        assert(p2 < p1);
        assert(p1b == p1 + 1);
        assert(p2a == p2);
        lemma_insert_insert_swap(s, p2, e2, p1, e1);
    } else {
        if p1 < p2 {
            assert(!I::key_lt(id1, id2)) by {
                if I::key_lt(id1, id2) {
                    assert(I::key_lt(s[p1].0, id1));
                    I::lemma_key_order(s[p1].0, id1, id2);
                    assert(I::key_lt(s[p1].0, id2));
                    assert(!I::key_lt(s[p1].0, id2));
                }
            }
            assert(p2a == p2 + 1);
            assert(p1b == p1);
            lemma_insert_insert_swap(s, p1, e1, p2, e2);
        } else if p2 < p1 {
            assert(!I::key_lt(id2, id1)) by {
                if I::key_lt(id2, id1) {
                    assert(I::key_lt(s[p2].0, id2));
                    I::lemma_key_order(s[p2].0, id2, id1);
                    assert(I::key_lt(s[p2].0, id1));
                    assert(!I::key_lt(s[p2].0, id1));
                }
            }
            assert(p1b == p1 + 1);
            assert(p2a == p2);
            lemma_insert_insert_swap(s, p2, e2, p1, e1);
        } else {
            I::lemma_key_order(id1, id2, id2);
            if I::key_lt(id2, id1) {
                lemma_key_asym::<I>(id2, id1);
                assert(p2a == p2 + 1);
                assert(p1b == p1);
                lemma_insert_insert_swap(s, p1, e1, p2, e2);
            } else {
                assert(I::key_lt(id1, id2));
                lemma_key_asym::<I>(id1, id2);
                assert(p1b == p1 + 1);
                assert(p2a == p2);
                lemma_insert_insert_swap(s, p2, e2, p1, e1);
            }
        }
    }
}

/// Delete commutativity: two deletes produce the same list in either order.
pub proof fn lemma_delete_commutes<I: ListKey, VV>(
    s: Seq<(I::V, VV, bool)>,
    a: I::V,
    b: I::V,
)
    ensures
        spec_delete::<I, VV>(spec_delete::<I, VV>(s, a), b) == spec_delete::<I, VV>(
            spec_delete::<I, VV>(s, b),
            a,
        ),
{
    let ja = find_index::<I, VV>(s, 0, a);
    let jb = find_index::<I, VV>(s, 0, b);
    lemma_find_index_spec::<I, VV>(s, 0, a);
    lemma_find_index_spec::<I, VV>(s, 0, b);
    let sa = spec_delete::<I, VV>(s, a);
    let sb = spec_delete::<I, VV>(s, b);
    assert(sa.len() == s.len());
    assert(sb.len() == s.len());
    assert(forall|k: int| 0 <= k < s.len() ==> (#[trigger] sa[k]).0 == s[k].0);
    assert(forall|k: int| 0 <= k < s.len() ==> (#[trigger] sb[k]).0 == s[k].0);
    lemma_find_index_same_ids::<I, VV>(sa, s, 0, b);
    lemma_find_index_same_ids::<I, VV>(sb, s, 0, a);
    if a == b {
        assert(spec_delete::<I, VV>(sa, b) =~= spec_delete::<I, VV>(sb, a));
    } else {
        if ja < s.len() && jb < s.len() {
            assert(s[ja].0 == a && s[jb].0 == b);
            assert(ja != jb);
            assert(sa[jb] == s[jb]);
            assert(sb[ja] == s[ja]);
            assert(spec_delete::<I, VV>(sa, b) =~= spec_delete::<I, VV>(sb, a));
        } else {
            assert(spec_delete::<I, VV>(sa, b) =~= spec_delete::<I, VV>(sb, a));
        }
    }
}

/// Insert/delete commutativity: an insert and a delete of a different id
/// produce the same list in either order.
pub proof fn lemma_insert_delete_commutes<I: ListKey, VV>(
    s: Seq<(I::V, VV, bool)>,
    id: I::V,
    v: VV,
    after: Option<I::V>,
    del_id: I::V,
)
    requires
        id != del_id,
    ensures
        spec_delete::<I, VV>(spec_insert::<I, VV>(s, id, v, after), del_id) == spec_insert::<
            I,
            VV,
        >(spec_delete::<I, VV>(s, del_id), id, v, after),
{
    let e = (id, v, false);
    let jd = find_index::<I, VV>(s, 0, del_id);
    lemma_find_index_spec::<I, VV>(s, 0, del_id);
    let sd = spec_delete::<I, VV>(s, del_id);
    assert(sd.len() == s.len());
    assert(forall|k: int| 0 <= k < s.len() ==> (#[trigger] sd[k]).0 == s[k].0);
    // the splice point is the same before and after the delete
    let f = match after {
        None => 0,
        Some(a) => {
            lemma_find_index_same_ids::<I, VV>(sd, s, 0, a);
            lemma_find_index_spec::<I, VV>(s, 0, a);
            let j = find_index::<I, VV>(s, 0, a);
            if j == s.len() {
                0
            } else {
                j + 1
            }
        },
    };
    match after {
        None => {},
        Some(a) => {
            if find_index::<I, VV>(s, 0, a) == s.len() {
                // the reference is absent either way: the insert is a no-op
                assert(spec_insert::<I, VV>(s, id, v, after) == s);
                assert(spec_insert::<I, VV>(sd, id, v, after) == sd);
                return ;
            }
        },
    }
    assert(0 <= f <= s.len());
    let p = insert_pos::<I, VV>(s, f, id);
    lemma_insert_pos_spec::<I, VV>(s, f, id);
    lemma_insert_pos_same_ids::<I, VV>(sd, s, f, id);
    let si = s.insert(p, e);
    assert(spec_insert::<I, VV>(s, id, v, after) == si);
    assert(spec_insert::<I, VV>(sd, id, v, after) == sd.insert(p, e));
    // where the delete lands in the inserted list
    let jd2 = if jd < p {
        jd
    } else {
        jd + 1
    };
    assert forall|k: int| 0 <= k < jd2 implies (#[trigger] si[k]).0 != del_id by {
        if k < p {
            assert(si[k] == s[k]);
        } else if k == p {
            assert(si[k] == e);
        } else {
            assert(si[k] == s[k - 1]);
        }
    }
    if jd < s.len() {
        if jd < p {
            assert(si[jd2] == s[jd]);
        } else {
            assert(si[jd2] == s[jd]);
        }
        lemma_find_index_from_props::<I, VV>(si, 0, del_id, jd2);
        assert(spec_delete::<I, VV>(si, del_id) == si.update(jd2, (s[jd].0, s[jd].1, true)));
        assert(si.update(jd2, (s[jd].0, s[jd].1, true)) =~= sd.insert(p, e));
    } else {
        assert(jd2 == si.len());
        lemma_find_index_from_props::<I, VV>(si, 0, del_id, jd2);
        assert(spec_delete::<I, VV>(si, del_id) == si);
        assert(sd =~= s);
        assert(si =~= sd.insert(p, e));
    }
}

/// The visible entries of a prefix are a prefix of the visible entries.
pub proof fn lemma_visible_prefix<IV, VV>(s: Seq<(IV, VV, bool)>, i: int)
    requires
        0 <= i <= s.len(),
    ensures
        visible(s.take(i)) == visible(s).take(visible(s.take(i)).len() as int),
        visible(s.take(i)).len() <= visible(s).len(),
    decreases s.len() - i,
{
    if i == s.len() {
        assert(s.take(i) =~= s);
        assert(visible(s).take(visible(s).len() as int) =~= visible(s));
    } else {
        assert(s.take(i + 1).drop_last() =~= s.take(i));
        assert(s.take(i + 1) =~= s.take(i).push(s[i]));
        lemma_visible_push(s.take(i), s[i]);
        lemma_visible_prefix(s, i + 1);
        if !s[i].2 {
            assert(visible(s.take(i + 1)) == visible(s.take(i)).push(s[i]));
            assert(visible(s.take(i)) =~= visible(s.take(i + 1)).drop_last());
            assert(visible(s.take(i)) =~= visible(s).take(visible(s.take(i)).len() as int));
        } else {
            assert(visible(s.take(i + 1)) == visible(s.take(i)));
        }
    }
}

} // verus!
