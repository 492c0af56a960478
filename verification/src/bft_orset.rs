//! The Byzantine-fault-tolerant observed-remove set.
//!
//! An add contributes the digest of its own node to the element's id set; a
//! remove names the digests it takes away.  A remove is semantically valid
//! only if every named digest is a stored add of the same element that is an
//! ancestor of the remove — a forged remove can never make an element
//! disappear.

use crate::bft_crdt::BFTCRDT;
use crate::hash_graph::{
    node_digest, node_has_ancestor, sorted_string_bytes, spec_struct_valid, HashGraph, Node,
    NodeView,
};
use crate::orset::{ORSet, ORSetOp, ORSetOpView};
use crate::serialize::{dup_string_vec, str_bytes, str_views, DupValue, Serialize};
use vstd::prelude::*;

verus! {

/// An observed-remove set operation: add an element, or remove the add
/// instances of an element named by their node digests.
pub enum BFTORSetOp {
    Add(String),
    Remove(String, Vec<String>),
}

/// The abstract value of an operation.
pub enum BFTORSetOpView {
    Add(Seq<char>),
    Remove(Seq<char>, Seq<Seq<char>>),
}

impl View for BFTORSetOp {
    type V = BFTORSetOpView;

    open spec fn view(&self) -> BFTORSetOpView {
        match self {
            BFTORSetOp::Add(e) => BFTORSetOpView::Add(e@),
            BFTORSetOp::Remove(e, ids) => BFTORSetOpView::Remove(e@, str_views(ids@)),
        }
    }
}

impl Serialize for BFTORSetOp {
    /// An add encodes as the element; a remove as the named digests sorted
    /// ascending, concatenated, followed by the element.
    ///
    /// Note that the two variants carry no discriminator, so an add and a
    /// remove that names no digests encode to the same bytes: with equal
    /// predecessors the two nodes share one digest, and whichever arrives
    /// second is treated as a re-submission and never interpreted.  A remove
    /// that names at least one digest cannot collide with an add this way.
    open spec fn bytes_of(v: BFTORSetOpView) -> Seq<u8> {
        match v {
            BFTORSetOpView::Add(e) => str_bytes(e),
            BFTORSetOpView::Remove(e, ids) => crate::lexorder::concat_bytes(
                crate::hash_graph::pred_bytes_of(ids).sort_by(crate::lexorder::lex_leq_fn()),
            ) + str_bytes(e),
        }
    }

    fn to_bytes(&self) -> (r: Vec<u8>) {
        match self {
            BFTORSetOp::Add(e) => e.as_str().as_bytes_vec(),
            BFTORSetOp::Remove(e, ids) => {
                let mut out = sorted_string_bytes(ids);
                let mut eb = e.as_str().as_bytes_vec();
                out.append(&mut eb);
                out
            },
        }
    }
}

impl DupValue for BFTORSetOp {
    fn dup(&self) -> (r: BFTORSetOp) {
        match self {
            BFTORSetOp::Add(e) => BFTORSetOp::Add(e.clone()),
            BFTORSetOp::Remove(e, ids) => BFTORSetOp::Remove(e.clone(), dup_string_vec(ids)),
        }
    }
}

/// Whether one named digest checks out against the graph: it is a stored
/// add of the same element, and an ancestor of the remove node.
pub open spec fn remove_id_ok(
    g: Map<Seq<char>, NodeView<BFTORSetOpView>>,
    node: NodeView<BFTORSetOpView>,
    e: Seq<char>,
    id: Seq<char>,
) -> bool {
    &&& g.contains_key(id)
    &&& g[id].value matches BFTORSetOpView::Add(e2) && e2 == e
    &&& node_has_ancestor::<BFTORSetOp>(g, node, id)
}

/// The semantic-validity predicate: adds are always valid; a remove is
/// valid only if every digest it names checks out.
pub open spec fn bft_orset_sem_valid(
    g: Map<Seq<char>, NodeView<BFTORSetOpView>>,
    node: NodeView<BFTORSetOpView>,
) -> bool {
    match node.value {
        BFTORSetOpView::Add(_) => true,
        BFTORSetOpView::Remove(e, ids) => forall|k: int|
            0 <= k < ids.len() ==> #[trigger] remove_id_ok(g, node, e, ids[k]),
    }
}

/// Removes affect only observed adds: every id a semantically valid remove
/// names is the digest of a stored add of the same element that causally
/// precedes the remove.  A Byzantine peer can therefore never make an
/// element appear removed unless a matching add was in the remove's
/// ancestry.
pub proof fn lemma_remove_names_only_observed(
    g: Map<Seq<char>, NodeView<BFTORSetOpView>>,
    node: NodeView<BFTORSetOpView>,
    k: int,
)
    requires
        bft_orset_sem_valid(g, node),
        node.value matches BFTORSetOpView::Remove(_, _),
        0 <= k < node.value->Remove_1.len(),
    ensures
        remove_id_ok(g, node, node.value->Remove_0, node.value->Remove_1[k]),
{
}

/// The plain observed-remove step a validated node performs: its digest is
/// the id of an add, and a remove takes away the ids it names.
pub open spec fn bft_orset_step(
    m: Map<Seq<char>, Set<Seq<char>>>,
    node: NodeView<BFTORSetOpView>,
) -> Map<Seq<char>, Set<Seq<char>>> {
    match node.value {
        BFTORSetOpView::Add(e) => crate::orset::spec_orset_step(
            m,
            ORSetOpView::Add(e, node_digest::<BFTORSetOp>(node)),
        ),
        BFTORSetOpView::Remove(e, ids) => crate::orset::spec_orset_step(
            m,
            ORSetOpView::Remove(e, ids),
        ),
    }
}

/// The digests of the stored adds of an element.
pub open spec fn adds_of(g: Map<Seq<char>, NodeView<BFTORSetOpView>>, e: Seq<char>) -> Set<
    Seq<char>,
> {
    Set::new(|d: Seq<char>| g.contains_key(d) && g[d].value == BFTORSetOpView::Add(e))
}

/// The digests named by any stored remove of an element.
pub open spec fn removed_of(g: Map<Seq<char>, NodeView<BFTORSetOpView>>, e: Seq<char>) -> Set<
    Seq<char>,
> {
    Set::new(
        |d: Seq<char>|
            exists|r: Seq<char>|
                #![trigger g[r]]
                g.contains_key(r) && (g[r].value matches BFTORSetOpView::Remove(e2, ids) && e2 == e
                    && ids.contains(d)),
    )
}

/// Every digest named by a stored remove is itself stored.  Admission
/// preserves this, because a remove is only admitted once it is
/// semantically valid.
pub open spec fn removes_resolved(g: Map<Seq<char>, NodeView<BFTORSetOpView>>) -> bool {
    forall|r: Seq<char>, k: int|
        #![trigger g[r].value->Remove_1[k]]
        g.contains_key(r) && (g[r].value matches BFTORSetOpView::Remove(_, _)) && 0 <= k
            < g[r].value->Remove_1.len() ==> g.contains_key(g[r].value->Remove_1[k])
}

/// The element map mirrors the admitted history: every element is present
/// under exactly the digests of its stored adds that no stored remove has
/// named.
pub open spec fn orset_tracks_graph(
    g: Map<Seq<char>, NodeView<BFTORSetOpView>>,
    m: Map<Seq<char>, Set<Seq<char>>>,
) -> bool {
    forall|e: Seq<char>|
        #![trigger crate::orset::present_ids(m, e)]
        crate::orset::present_ids(m, e) == adds_of(g, e).difference(removed_of(g, e))
}

/// A fresh replica over an empty graph tracks it.
pub proof fn lemma_orset_tracks_empty()
    ensures
        orset_tracks_graph(
            Map::<Seq<char>, NodeView<BFTORSetOpView>>::empty(),
            Map::<Seq<char>, Set<Seq<char>>>::empty(),
        ),
        removes_resolved(Map::<Seq<char>, NodeView<BFTORSetOpView>>::empty()),
{
    let g = Map::<Seq<char>, NodeView<BFTORSetOpView>>::empty();
    let m = Map::<Seq<char>, Set<Seq<char>>>::empty();
    assert forall|e: Seq<char>| #[trigger]
        crate::orset::present_ids(m, e) == adds_of(g, e).difference(removed_of(g, e)) by {
        assert(crate::orset::present_ids(m, e) =~= adds_of(g, e).difference(removed_of(g, e)));
    }
}

/// Admitting and interpreting one valid, fresh node keeps the element map
/// tracking the graph.
pub proof fn lemma_orset_tracks_step(
    g: Map<Seq<char>, NodeView<BFTORSetOpView>>,
    m: Map<Seq<char>, Set<Seq<char>>>,
    n: NodeView<BFTORSetOpView>,
)
    requires
        orset_tracks_graph(g, m),
        removes_resolved(g),
        bft_orset_sem_valid(g, n),
        !g.contains_key(node_digest::<BFTORSetOp>(n)),
    ensures
        orset_tracks_graph(
            g.insert(node_digest::<BFTORSetOp>(n), n),
            bft_orset_step(m, n),
        ),
        removes_resolved(g.insert(node_digest::<BFTORSetOp>(n), n)),
{
    let d = node_digest::<BFTORSetOp>(n);
    let g2 = g.insert(d, n);
    let m2 = bft_orset_step(m, n);
    match n.value {
        BFTORSetOpView::Add(e1) => {
            assert forall|e: Seq<char>| #[trigger]
                crate::orset::present_ids(m2, e) == adds_of(g2, e).difference(
                removed_of(g2, e),
            ) by {
                assert(removed_of(g2, e) =~= removed_of(g, e)) by {
                    assert forall|x: Seq<char>|
                        removed_of(g2, e).contains(x) implies removed_of(g, e).contains(x) by {
                        let r = choose|r: Seq<char>|
                            #![trigger g2[r]]
                            g2.contains_key(r) && (g2[r].value matches BFTORSetOpView::Remove(
                                e2,
                                ids,
                            ) && e2 == e && ids.contains(x));
                        assert(r != d);
                        assert(g[r] == g2[r]);
                    }
                    assert forall|x: Seq<char>|
                        removed_of(g, e).contains(x) implies removed_of(g2, e).contains(x) by {
                        let r = choose|r: Seq<char>|
                            #![trigger g[r]]
                            g.contains_key(r) && (g[r].value matches BFTORSetOpView::Remove(
                                e2,
                                ids,
                            ) && e2 == e && ids.contains(x));
                        assert(r != d);
                        assert(g2[r] == g[r]);
                        assert(g2.contains_key(r));
                    }
                }
                if e == e1 {
                    assert(adds_of(g2, e) =~= adds_of(g, e).insert(d));
                    // the fresh digest cannot have been named: every named
                    // digest is stored
                    assert(!removed_of(g, e).contains(d)) by {
                        if removed_of(g, e).contains(d) {
                            let r = choose|r: Seq<char>|
                                #![trigger g[r]]
                                g.contains_key(r) && (g[r].value matches BFTORSetOpView::Remove(
                                    e2,
                                    ids,
                                ) && e2 == e && ids.contains(d));
                            let k = choose|k: int|
                                0 <= k < g[r].value->Remove_1.len() && g[r].value->Remove_1[k]
                                    == d;
                            assert(g.contains_key(g[r].value->Remove_1[k]));
                        }
                    }
                    assert(crate::orset::present_ids(m2, e) == crate::orset::present_ids(
                        m,
                        e,
                    ).insert(d));
                    assert(crate::orset::present_ids(m, e).insert(d) =~= adds_of(
                        g,
                        e,
                    ).insert(d).difference(removed_of(g, e)));
                } else {
                    assert(adds_of(g2, e) =~= adds_of(g, e));
                    assert(crate::orset::present_ids(m2, e) == crate::orset::present_ids(m, e));
                }
            }
            assert forall|r: Seq<char>, k: int|
                g2.contains_key(r) && (g2[r].value matches BFTORSetOpView::Remove(_, _)) && 0
                    <= k < g2[r].value->Remove_1.len() implies g2.contains_key(
                #[trigger] g2[r].value->Remove_1[k],
            ) by {
                assert(r != d);
                assert(g2[r] == g[r]);
                assert(g.contains_key(g[r].value->Remove_1[k]));
            }
        },
        BFTORSetOpView::Remove(e1, ids1) => {
            assert forall|e: Seq<char>| #[trigger]
                crate::orset::present_ids(m2, e) == adds_of(g2, e).difference(
                removed_of(g2, e),
            ) by {
                assert(adds_of(g2, e) =~= adds_of(g, e)) by {
                    assert(g2[d].value == n.value);
                }
                if e == e1 {
                    assert(removed_of(g2, e) =~= removed_of(g, e).union(ids1.to_set())) by {
                        assert forall|x: Seq<char>|
                            removed_of(g2, e).contains(x) implies removed_of(g, e).union(
                            ids1.to_set(),
                        ).contains(x) by {
                            let r = choose|r: Seq<char>|
                                #![trigger g2[r]]
                                g2.contains_key(r) && (g2[r].value
                                    matches BFTORSetOpView::Remove(e2, ids) && e2 == e
                                    && ids.contains(x));
                            if r == d {
                                assert(ids1.contains(x));
                            } else {
                                assert(g[r] == g2[r]);
                            }
                        }
                        assert forall|x: Seq<char>|
                            removed_of(g, e).union(ids1.to_set()).contains(x) implies removed_of(
                            g2,
                            e,
                        ).contains(x) by {
                            if removed_of(g, e).contains(x) {
                                let r = choose|r: Seq<char>|
                                    #![trigger g[r]]
                                    g.contains_key(r) && (g[r].value
                                        matches BFTORSetOpView::Remove(e2, ids) && e2 == e
                                        && ids.contains(x));
                                assert(r != d);
                                assert(g2.contains_key(r) && g2[r] == g[r]);
                            } else {
                                assert(ids1.contains(x));
                                assert(g2.contains_key(d));
                                assert(g2[d].value == n.value);
                            }
                        }
                    }
                    assert(crate::orset::present_ids(m2, e) == crate::orset::present_ids(
                        m,
                        e,
                    ).difference(ids1.to_set()));
                    assert(crate::orset::present_ids(m, e).difference(ids1.to_set()) =~= adds_of(
                        g,
                        e,
                    ).difference(removed_of(g, e).union(ids1.to_set())));
                } else {
                    assert(removed_of(g2, e) =~= removed_of(g, e)) by {
                        assert forall|x: Seq<char>|
                            removed_of(g2, e).contains(x) implies removed_of(g, e).contains(
                            x,
                        ) by {
                            let r = choose|r: Seq<char>|
                                #![trigger g2[r]]
                                g2.contains_key(r) && (g2[r].value
                                    matches BFTORSetOpView::Remove(e2, ids) && e2 == e
                                    && ids.contains(x));
                            assert(r != d);
                            assert(g[r] == g2[r]);
                        }
                        assert forall|x: Seq<char>|
                            removed_of(g, e).contains(x) implies removed_of(g2, e).contains(
                            x,
                        ) by {
                            let r = choose|r: Seq<char>|
                                #![trigger g[r]]
                                g.contains_key(r) && (g[r].value
                                    matches BFTORSetOpView::Remove(e2, ids) && e2 == e
                                    && ids.contains(x));
                            assert(r != d);
                            assert(g2.contains_key(r) && g2[r] == g[r]);
                        }
                    }
                    assert(crate::orset::present_ids(m2, e) == crate::orset::present_ids(m, e));
                }
            }
            assert forall|r: Seq<char>, k: int|
                g2.contains_key(r) && (g2[r].value matches BFTORSetOpView::Remove(_, _)) && 0
                    <= k < g2[r].value->Remove_1.len() implies g2.contains_key(
                #[trigger] g2[r].value->Remove_1[k],
            ) by {
                if r == d {
                    lemma_remove_names_only_observed(g, n, k);
                    assert(g.contains_key(n.value->Remove_1[k]));
                } else {
                    assert(g2[r] == g[r]);
                    assert(g.contains_key(g[r].value->Remove_1[k]));
                }
            }
        },
    }
}

/// The tracking invariant survives a whole buffer pass: a pass admits and
/// interprets only valid, fresh nodes.
pub proof fn lemma_orset_tracks_eval_pass(
    g: Map<Seq<char>, NodeView<BFTORSetOpView>>,
    m: Map<Seq<char>, Set<Seq<char>>>,
    pend: Seq<NodeView<BFTORSetOpView>>,
)
    requires
        orset_tracks_graph(g, m),
        removes_resolved(g),
    ensures
        orset_tracks_graph(
            crate::bft_crdt::eval_pass::<BFTORSetOp, BFTORSet>(g, m, pend).0,
            crate::bft_crdt::eval_pass::<BFTORSetOp, BFTORSet>(g, m, pend).1,
        ),
        removes_resolved(crate::bft_crdt::eval_pass::<BFTORSetOp, BFTORSet>(g, m, pend).0),
    decreases pend.len(),
{
    if pend.len() > 0 {
        let n = pend[0];
        let rest = pend.drop_first();
        let d = node_digest::<BFTORSetOp>(n);
        if g.contains_key(d) {
            assert(crate::bft_crdt::eval_pass::<BFTORSetOp, BFTORSet>(g, m, pend)
                == crate::bft_crdt::eval_pass::<BFTORSetOp, BFTORSet>(g, m, rest));
            lemma_orset_tracks_eval_pass(g, m, rest);
        } else if spec_struct_valid(g, n) && bft_orset_sem_valid(g, n) {
            let g2 = g.insert(d, n);
            let m2 = bft_orset_step(m, n);
            assert(crate::bft_crdt::eval_pass::<BFTORSetOp, BFTORSet>(g, m, pend)
                == crate::bft_crdt::eval_pass::<BFTORSetOp, BFTORSet>(g2, m2, rest));
            lemma_orset_tracks_step(g, m, n);
            lemma_orset_tracks_eval_pass(g2, m2, rest);
        } else {
            assert(crate::bft_crdt::eval_pass::<BFTORSetOp, BFTORSet>(g, m, pend).0
                == crate::bft_crdt::eval_pass::<BFTORSetOp, BFTORSet>(g, m, rest).0);
            assert(crate::bft_crdt::eval_pass::<BFTORSetOp, BFTORSet>(g, m, pend).1
                == crate::bft_crdt::eval_pass::<BFTORSetOp, BFTORSet>(g, m, rest).1);
            lemma_orset_tracks_eval_pass(g, m, rest);
        }
    }
}

/// The tracking invariant survives re-evaluation to the fixed point.
pub proof fn lemma_orset_tracks_eval_pending(
    g: Map<Seq<char>, NodeView<BFTORSetOpView>>,
    m: Map<Seq<char>, Set<Seq<char>>>,
    pend: Seq<NodeView<BFTORSetOpView>>,
)
    requires
        orset_tracks_graph(g, m),
        removes_resolved(g),
    ensures
        orset_tracks_graph(
            crate::bft_crdt::eval_pending::<BFTORSetOp, BFTORSet>(g, m, pend).0,
            crate::bft_crdt::eval_pending::<BFTORSetOp, BFTORSet>(g, m, pend).1,
        ),
        removes_resolved(crate::bft_crdt::eval_pending::<BFTORSetOp, BFTORSet>(g, m, pend).0),
    decreases pend.len(),
{
    let pass = crate::bft_crdt::eval_pass::<BFTORSetOp, BFTORSet>(g, m, pend);
    lemma_orset_tracks_eval_pass(g, m, pend);
    if pass.2.len() < pend.len() {
        lemma_orset_tracks_eval_pending(pass.0, pass.1, pass.2);
    }
}

/// The tracking invariant survives a remote submission: whichever of the
/// protocol's branches the node takes, the element map keeps mirroring the
/// stored history.
pub proof fn lemma_orset_tracks_remote(
    g: Map<Seq<char>, NodeView<BFTORSetOpView>>,
    m: Map<Seq<char>, Set<Seq<char>>>,
    p0: Seq<NodeView<BFTORSetOpView>>,
    nv: NodeView<BFTORSetOpView>,
)
    requires
        orset_tracks_graph(g, m),
        removes_resolved(g),
        !g.contains_key(node_digest::<BFTORSetOp>(nv)),
        spec_struct_valid(g, nv),
        bft_orset_sem_valid(g, nv),
    ensures
        orset_tracks_graph(
            crate::bft_crdt::eval_pending::<BFTORSetOp, BFTORSet>(
                g.insert(node_digest::<BFTORSetOp>(nv), nv),
                bft_orset_step(m, nv),
                p0,
            ).0,
            crate::bft_crdt::eval_pending::<BFTORSetOp, BFTORSet>(
                g.insert(node_digest::<BFTORSetOp>(nv), nv),
                bft_orset_step(m, nv),
                p0,
            ).1,
        ),
{
    lemma_orset_tracks_step(g, m, nv);
    lemma_orset_tracks_eval_pending(
        g.insert(node_digest::<BFTORSetOp>(nv), nv),
        bft_orset_step(m, nv),
        p0,
    );
}

/// The whole-history reading of observed-remove: under the tracking
/// invariant an element is absent exactly when every stored add of it has
/// been named by some stored remove, the stored graph standing for the
/// admitted history.
pub proof fn lemma_orset_absent_iff_all_removed(
    g: Map<Seq<char>, NodeView<BFTORSetOpView>>,
    m: Map<Seq<char>, Set<Seq<char>>>,
    e: Seq<char>,
)
    requires
        orset_tracks_graph(g, m),
    ensures
        (crate::orset::present_ids(m, e) == Set::<Seq<char>>::empty()) <==> adds_of(
            g,
            e,
        ).subset_of(removed_of(g, e)),
{
    let a = adds_of(g, e);
    let r = removed_of(g, e);
    if crate::orset::present_ids(m, e) == Set::<Seq<char>>::empty() {
        assert forall|d: Seq<char>| a.contains(d) implies r.contains(d) by {
            if !r.contains(d) {
                assert(a.difference(r).contains(d));
                assert(crate::orset::present_ids(m, e).contains(d));
            }
        }
    }
    if a.subset_of(r) {
        assert(crate::orset::present_ids(m, e) =~= Set::<Seq<char>>::empty());
    }
}

/// The executable observer agrees with the history reading: under the
/// tracking invariant, `is_in` answers false exactly when every stored add
/// of the element has been named by some stored remove.
pub proof fn lemma_is_in_tracks_history(
    set: &BFTORSet,
    g: Map<Seq<char>, NodeView<BFTORSetOpView>>,
    e: Seq<char>,
)
    requires
        set.wf(),
        orset_tracks_graph(g, set@),
    ensures
        (set@.contains_key(e) && set@[e].len() != 0) <==> !adds_of(g, e).subset_of(
            removed_of(g, e),
        ),
{
    crate::orset::lemma_elems_map_values_finite(set.elements.elements@);
    lemma_orset_absent_iff_all_removed(g, set@, e);
    let p = crate::orset::present_ids(set@, e);
    if set@.contains_key(e) && set@[e].len() != 0 {
        assert(p == set@[e]);
        if p == Set::<Seq<char>>::empty() {
            assert(set@[e].len() == 0);
        }
    }
    if !adds_of(g, e).subset_of(removed_of(g, e)) {
        assert(p != Set::<Seq<char>>::empty());
        assert(set@.contains_key(e));
        assert(set@[e].finite());
        if set@[e].len() == 0 {
            set@[e].lemma_len0_is_empty();
        }
    }
}

/// A step of the replica loses an id only when the node is a remove naming
/// that id for that element; interpreting an add never loses anything.
pub proof fn lemma_bft_orset_step_loses_only_named(
    m: Map<Seq<char>, Set<Seq<char>>>,
    n: NodeView<BFTORSetOpView>,
    e: Seq<char>,
    id: Seq<char>,
)
    requires
        crate::orset::present_ids(m, e).contains(id),
        !crate::orset::present_ids(bft_orset_step(m, n), e).contains(id),
    ensures
        n.value matches BFTORSetOpView::Remove(e2, ids) && e2 == e && ids.contains(id),
{
    match n.value {
        BFTORSetOpView::Add(e2) => {
            crate::orset::lemma_orset_step_loses_only_named(
                m,
                ORSetOpView::Add(e2, node_digest::<BFTORSetOp>(n)),
                e,
                id,
            );
        },
        BFTORSetOpView::Remove(e2, ids) => {
            crate::orset::lemma_orset_step_loses_only_named(
                m,
                ORSetOpView::Remove(e2, ids),
                e,
                id,
            );
        },
    }
}

/// Through a whole buffer pass, an id is lost only if one of the buffered
/// nodes is a remove that names it.
pub proof fn lemma_orset_pass_loses_only_named(
    g: Map<Seq<char>, NodeView<BFTORSetOpView>>,
    m: Map<Seq<char>, Set<Seq<char>>>,
    pend: Seq<NodeView<BFTORSetOpView>>,
    e: Seq<char>,
    id: Seq<char>,
)
    requires
        crate::orset::present_ids(m, e).contains(id),
        !crate::orset::present_ids(
            crate::bft_crdt::eval_pass::<BFTORSetOp, BFTORSet>(g, m, pend).1,
            e,
        ).contains(id),
    ensures
        exists|j: int|
            0 <= j < pend.len() && ((#[trigger] pend[j]).value matches BFTORSetOpView::Remove(
                e2,
                ids,
            ) && e2 == e && ids.contains(id)),
    decreases pend.len(),
{
    let n = pend[0];
    let rest = pend.drop_first();
    let d = node_digest::<BFTORSetOp>(n);
    if g.contains_key(d) {
        assert(crate::bft_crdt::eval_pass::<BFTORSetOp, BFTORSet>(g, m, pend).1
            == crate::bft_crdt::eval_pass::<BFTORSetOp, BFTORSet>(g, m, rest).1);
        lemma_orset_pass_loses_only_named(g, m, rest, e, id);
        let j = choose|j: int|
            0 <= j < rest.len() && ((#[trigger] rest[j]).value matches BFTORSetOpView::Remove(
                e2,
                ids,
            ) && e2 == e && ids.contains(id));
        assert(pend[j + 1] == rest[j]);
    } else if spec_struct_valid(g, n) && bft_orset_sem_valid(g, n) {
        let g2 = g.insert(d, n);
        let m2 = bft_orset_step(m, n);
        assert(crate::bft_crdt::eval_pass::<BFTORSetOp, BFTORSet>(g, m, pend).1
            == crate::bft_crdt::eval_pass::<BFTORSetOp, BFTORSet>(g2, m2, rest).1);
        if crate::orset::present_ids(m2, e).contains(id) {
            lemma_orset_pass_loses_only_named(g2, m2, rest, e, id);
            let j = choose|j: int|
                0 <= j < rest.len() && ((#[trigger] rest[j]).value matches BFTORSetOpView::Remove(
                    e2,
                    ids,
                ) && e2 == e && ids.contains(id));
            assert(pend[j + 1] == rest[j]);
        } else {
            lemma_bft_orset_step_loses_only_named(m, n, e, id);
            assert(pend[0] == n);
        }
    } else {
        assert(crate::bft_crdt::eval_pass::<BFTORSetOp, BFTORSet>(g, m, pend).1
            == crate::bft_crdt::eval_pass::<BFTORSetOp, BFTORSet>(g, m, rest).1);
        lemma_orset_pass_loses_only_named(g, m, rest, e, id);
        let j = choose|j: int|
            0 <= j < rest.len() && ((#[trigger] rest[j]).value matches BFTORSetOpView::Remove(
                e2,
                ids,
            ) && e2 == e && ids.contains(id));
        assert(pend[j + 1] == rest[j]);
    }
}

/// Through the whole re-evaluation fixed point, an id is lost only if a
/// buffered remove names it.
pub proof fn lemma_orset_pending_loses_only_named(
    g: Map<Seq<char>, NodeView<BFTORSetOpView>>,
    m: Map<Seq<char>, Set<Seq<char>>>,
    pend: Seq<NodeView<BFTORSetOpView>>,
    e: Seq<char>,
    id: Seq<char>,
)
    requires
        crate::orset::present_ids(m, e).contains(id),
        !crate::orset::present_ids(
            crate::bft_crdt::eval_pending::<BFTORSetOp, BFTORSet>(g, m, pend).1,
            e,
        ).contains(id),
    ensures
        exists|j: int|
            0 <= j < pend.len() && ((#[trigger] pend[j]).value matches BFTORSetOpView::Remove(
                e2,
                ids,
            ) && e2 == e && ids.contains(id)),
    decreases pend.len(),
{
    let pass = crate::bft_crdt::eval_pass::<BFTORSetOp, BFTORSet>(g, m, pend);
    if pass.2.len() < pend.len() {
        if crate::orset::present_ids(pass.1, e).contains(id) {
            lemma_orset_pending_loses_only_named(pass.0, pass.1, pass.2, e, id);
            let j = choose|j: int|
                0 <= j < pass.2.len() && ((#[trigger] pass.2[j]).value
                    matches BFTORSetOpView::Remove(e2, ids) && e2 == e && ids.contains(id));
            crate::bft_crdt::lemma_eval_pass_kept_subset::<BFTORSetOp, BFTORSet>(g, m, pend);
            assert(pass.2.contains(pass.2[j]));
            assert(pend.contains(pass.2[j]));
            let j2 = choose|j2: int| 0 <= j2 < pend.len() && pend[j2] == pass.2[j];
        } else {
            lemma_orset_pass_loses_only_named(g, m, pend, e, id);
        }
    } else {
        lemma_orset_pass_loses_only_named(g, m, pend, e, id);
    }
}

/// An id present before a remote submission and absent after it was taken
/// away by an interpreted remove that named it: the submitted node itself,
/// or one re-evaluated out of the pending buffer.  Adds and inserts never
/// lose state; only explicit removes do.
pub proof fn lemma_orset_remote_loses_only_named(
    g: Map<Seq<char>, NodeView<BFTORSetOpView>>,
    m: Map<Seq<char>, Set<Seq<char>>>,
    p0: Seq<NodeView<BFTORSetOpView>>,
    nv: NodeView<BFTORSetOpView>,
    e: Seq<char>,
    id: Seq<char>,
)
    requires
        !g.contains_key(node_digest::<BFTORSetOp>(nv)),
        spec_struct_valid(g, nv),
        bft_orset_sem_valid(g, nv),
        crate::orset::present_ids(m, e).contains(id),
        !crate::orset::present_ids(
            crate::bft_crdt::eval_pending::<BFTORSetOp, BFTORSet>(
                g.insert(node_digest::<BFTORSetOp>(nv), nv),
                bft_orset_step(m, nv),
                p0,
            ).1,
            e,
        ).contains(id),
    ensures
        (nv.value matches BFTORSetOpView::Remove(e2, ids) && e2 == e && ids.contains(id))
            || exists|j: int|
            0 <= j < p0.len() && ((#[trigger] p0[j]).value matches BFTORSetOpView::Remove(
                e2,
                ids,
            ) && e2 == e && ids.contains(id)),
{
    let m2 = bft_orset_step(m, nv);
    if crate::orset::present_ids(m2, e).contains(id) {
        lemma_orset_pending_loses_only_named(
            g.insert(node_digest::<BFTORSetOp>(nv), nv),
            m2,
            p0,
            e,
            id,
        );
    } else {
        lemma_bft_orset_step_loses_only_named(m, nv, e, id);
    }
}

/// Interpretation commutativity at the replica level: two nodes commute
/// whenever neither remove names the other node's digest.  A remove can
/// only name digests in its own ancestry, so concurrent nodes always
/// satisfy this side condition.
pub proof fn lemma_bft_orset_step_commutes(
    m: Map<Seq<char>, Set<Seq<char>>>,
    n1: NodeView<BFTORSetOpView>,
    n2: NodeView<BFTORSetOpView>,
)
    requires
        (n1.value matches BFTORSetOpView::Add(e1) && n2.value matches BFTORSetOpView::Remove(
            e2,
            ids2,
        ) && e1 == e2) ==> !n2.value->Remove_1.contains(node_digest::<BFTORSetOp>(n1)),
        (n2.value matches BFTORSetOpView::Add(e2) && n1.value matches BFTORSetOpView::Remove(
            e1,
            ids1,
        ) && e1 == e2) ==> !n1.value->Remove_1.contains(node_digest::<BFTORSetOp>(n2)),
    ensures
        bft_orset_step(bft_orset_step(m, n1), n2) == bft_orset_step(bft_orset_step(m, n2), n1),
{
    let op1 = match n1.value {
        BFTORSetOpView::Add(e) => ORSetOpView::Add(e, node_digest::<BFTORSetOp>(n1)),
        BFTORSetOpView::Remove(e, ids) => ORSetOpView::Remove(e, ids),
    };
    let op2 = match n2.value {
        BFTORSetOpView::Add(e) => ORSetOpView::Add(e, node_digest::<BFTORSetOp>(n2)),
        BFTORSetOpView::Remove(e, ids) => ORSetOpView::Remove(e, ids),
    };
    crate::orset::lemma_orset_step_commutes(m, op1, op2);
}

/// Semantic validity is monotone under admission: once a node's predicate
/// holds it keeps holding as more nodes are stored, which is what lets the
/// pending buffer be re-evaluated after every admission.
pub proof fn lemma_orset_sem_valid_monotone(
    g: Map<Seq<char>, NodeView<BFTORSetOpView>>,
    g2: Map<Seq<char>, NodeView<BFTORSetOpView>>,
    node: NodeView<BFTORSetOpView>,
)
    requires
        g.submap_of(g2),
        bft_orset_sem_valid(g, node),
    ensures
        bft_orset_sem_valid(g2, node),
{
    match node.value {
        BFTORSetOpView::Add(_) => {},
        BFTORSetOpView::Remove(e, ids) => {
            assert forall|k: int| 0 <= k < ids.len() implies #[trigger] remove_id_ok(
                g2,
                node,
                e,
                ids[k],
            ) by {
                assert(remove_id_ok(g, node, e, ids[k]));
                assert(g2.contains_key(ids[k]) && g2[ids[k]] == g[ids[k]]);
                crate::hash_graph::lemma_node_has_ancestor_monotone::<BFTORSetOp>(
                    g,
                    g2,
                    node,
                    ids[k],
                );
            }
        },
    }
}

/// Concurrent semantically valid nodes commute outright: a remove can only
/// name digests already stored, so it can never name the digest of a node
/// that is not admitted yet.  This is the per-pair step behind convergence
/// of replicas that admit the same nodes in different orders.
pub proof fn lemma_bft_orset_concurrent_commute(
    g: Map<Seq<char>, NodeView<BFTORSetOpView>>,
    m: Map<Seq<char>, Set<Seq<char>>>,
    n1: NodeView<BFTORSetOpView>,
    n2: NodeView<BFTORSetOpView>,
)
    requires
        bft_orset_sem_valid(g, n1),
        bft_orset_sem_valid(g, n2),
        !g.contains_key(node_digest::<BFTORSetOp>(n1)),
        !g.contains_key(node_digest::<BFTORSetOp>(n2)),
    ensures
        bft_orset_step(bft_orset_step(m, n1), n2) == bft_orset_step(bft_orset_step(m, n2), n1),
{
    if n2.value matches BFTORSetOpView::Remove(_, _) && n2.value->Remove_1.contains(
        node_digest::<BFTORSetOp>(n1),
    ) {
        let k = choose|k: int|
            0 <= k < n2.value->Remove_1.len() && n2.value->Remove_1[k] == node_digest::<
                BFTORSetOp,
            >(n1);
        lemma_remove_names_only_observed(g, n2, k);
    }
    if n1.value matches BFTORSetOpView::Remove(_, _) && n1.value->Remove_1.contains(
        node_digest::<BFTORSetOp>(n2),
    ) {
        let k = choose|k: int|
            0 <= k < n1.value->Remove_1.len() && n1.value->Remove_1[k] == node_digest::<
                BFTORSetOp,
            >(n2);
        lemma_remove_names_only_observed(g, n1, k);
    }
    lemma_bft_orset_step_commutes(m, n1, n2);
}

/// Convergence for one pair of concurrent observed-remove submissions: two
/// unstored, valid nodes with distinct digests may arrive in either order;
/// both orders admit both nodes and end in the same graph and the same
/// element map.
pub proof fn lemma_bft_orset_pairwise_convergence(
    g: Map<Seq<char>, NodeView<BFTORSetOpView>>,
    m: Map<Seq<char>, Set<Seq<char>>>,
    n1: NodeView<BFTORSetOpView>,
    n2: NodeView<BFTORSetOpView>,
)
    requires
        !g.contains_key(node_digest::<BFTORSetOp>(n1)),
        !g.contains_key(node_digest::<BFTORSetOp>(n2)),
        node_digest::<BFTORSetOp>(n1) != node_digest::<BFTORSetOp>(n2),
        spec_struct_valid(g, n1),
        bft_orset_sem_valid(g, n1),
        spec_struct_valid(g, n2),
        bft_orset_sem_valid(g, n2),
    ensures
        bft_orset_sem_valid(crate::bft_crdt::spec_admit::<BFTORSetOp>(g, n1), n2),
        bft_orset_sem_valid(crate::bft_crdt::spec_admit::<BFTORSetOp>(g, n2), n1),
        crate::bft_crdt::spec_admit::<BFTORSetOp>(
            crate::bft_crdt::spec_admit::<BFTORSetOp>(g, n1),
            n2,
        ) == crate::bft_crdt::spec_admit::<BFTORSetOp>(
            crate::bft_crdt::spec_admit::<BFTORSetOp>(g, n2),
            n1,
        ),
        bft_orset_step(bft_orset_step(m, n1), n2) == bft_orset_step(bft_orset_step(m, n2), n1),
{
    let g1 = crate::bft_crdt::spec_admit::<BFTORSetOp>(g, n1);
    let g2 = crate::bft_crdt::spec_admit::<BFTORSetOp>(g, n2);
    assert(g.submap_of(g1));
    assert(g.submap_of(g2));
    lemma_orset_sem_valid_monotone(g, g1, n2);
    lemma_orset_sem_valid_monotone(g, g2, n1);
    lemma_bft_orset_concurrent_commute(g, m, n1, n2);
    crate::bft_crdt::lemma_pairwise_convergence::<BFTORSetOp, BFTORSet>(g, m, n1, n2);
}

/// The observed-remove set state: one id set per element, ids being the
/// digests of the add nodes.
pub struct BFTORSet {
    pub elements: ORSet,
}

impl View for BFTORSet {
    type V = Map<Seq<char>, Set<Seq<char>>>;

    open spec fn view(&self) -> Map<Seq<char>, Set<Seq<char>>> {
        self.elements@
    }
}

impl BFTORSet {
    /// The representation invariant.
    pub open spec fn wf(&self) -> bool {
        self.elements.wf()
    }

    /// An empty set.
    pub fn new() -> (r: BFTORSet)
        ensures
            r.wf(),
            r@ == Map::<Seq<char>, Set<Seq<char>>>::empty(),
    {
        BFTORSet { elements: ORSet::new() }
    }

    /// Build an add operation; the state is not touched.
    pub fn add(&mut self, e: String) -> (r: BFTORSetOp)
        ensures
            *final(self) == *old(self),
            r@ == BFTORSetOpView::Add(e@),
    {
        BFTORSetOp::Add(e)
    }

    /// Build a remove operation naming exactly the given digests; the state
    /// is not touched.
    pub fn remove(&mut self, e: String, ids: Vec<String>) -> (r: BFTORSetOp)
        ensures
            *final(self) == *old(self),
            r@ == BFTORSetOpView::Remove(e@, str_views(ids@)),
    {
        BFTORSetOp::Remove(e, ids)
    }

    /// Build the remove that names every id currently observed for the
    /// element.
    pub fn remove_elem(&mut self, e: String) -> (r: BFTORSetOp)
        requires
            old(self).wf(),
        ensures
            *final(self) == *old(self),
            r@ matches BFTORSetOpView::Remove(e2, ids) && e2 == e@ && ids.to_set() == (if old(
                self,
            )@.contains_key(e@) {
                old(self)@[e@]
            } else {
                Set::<Seq<char>>::empty()
            }),
    {
        let ids = self.elements.get_ids(e.clone());
        BFTORSetOp::Remove(e, ids)
    }

    /// Whether the element is present: some add of it survives.
    pub fn is_in(&self, e: String) -> (r: bool)
        requires
            self.wf(),
        ensures
            r == (self@.contains_key(e@) && self@[e@].len() != 0),
    {
        self.elements.is_in(e)
    }

    /// The digests under which this element is currently present.
    pub fn get_ids(&self, e: String) -> (r: Vec<String>)
        requires
            self.wf(),
        ensures
            str_views(r@).to_set() == (if self@.contains_key(e@) {
                self@[e@]
            } else {
                Set::<Seq<char>>::empty()
            }),
            str_views(r@).no_duplicates(),
    {
        self.elements.get_ids(e)
    }

    /// The elements that are present: those with a surviving add.
    #[verifier::loop_isolation(false)]
    pub fn get_set(&self) -> (r: Vec<String>)
        requires
            self.wf(),
        ensures
            forall|e: Seq<char>|
                #![trigger str_views(r@).contains(e)]
                str_views(r@).contains(e) <==> (self@.contains_key(e) && self@[e].len() != 0),
            str_views(r@).no_duplicates(),
    {
        let entries = &self.elements.elements;
        let mut r: Vec<String> = Vec::new();
        let mut i: usize = 0;
        while i < entries.len()
            invariant
                i <= entries@.len(),
                forall|e: Seq<char>|
                    #![trigger str_views(r@).contains(e)]
                    str_views(r@).contains(e) <==> exists|j: int|
                        0 <= j < i && (#[trigger] entries@[j]).0@ == e && entries@[j].1@.len()
                            != 0,
                str_views(r@).no_duplicates(),
            decreases entries@.len() - i,
        {
            let ghost prevr = str_views(r@);
            if entries[i].1.len() != 0 {
                r.push(entries[i].0.clone());
                proof {
                    assert(str_views(r@) =~= prevr.push(entries@[i as int].0@));
                    assert forall|e: Seq<char>| #[trigger]
                        str_views(r@).contains(e) implies exists|j: int|
                        0 <= j < i + 1 && (#[trigger] entries@[j]).0@ == e && entries@[j].1@.len()
                            != 0 by {
                        let k = choose|k: int|
                            0 <= k < str_views(r@).len() && str_views(r@)[k] == e;
                        if k < prevr.len() {
                            assert(prevr.contains(e));
                        } else {
                            assert(entries@[i as int].0@ == e);
                        }
                    }
                    assert forall|e: Seq<char>|
                        (exists|j: int|
                            0 <= j < i + 1 && (#[trigger] entries@[j]).0@ == e
                                && entries@[j].1@.len() != 0) implies #[trigger] str_views(
                        r@,
                    ).contains(e) by {
                        let j = choose|j: int|
                            0 <= j < i + 1 && entries@[j].0@ == e && entries@[j].1@.len() != 0;
                        if j < i {
                            assert(prevr.contains(e));
                            let k = choose|k: int| 0 <= k < prevr.len() && prevr[k] == e;
                            assert(str_views(r@)[k] == e);
                        } else {
                            assert(str_views(r@).last() == e);
                        }
                    }
                    assert forall|a: int, b: int|
                        0 <= a < b < str_views(r@).len() implies str_views(r@)[a] != str_views(
                        r@,
                    )[b] by {
                        if b == prevr.len() {
                            if prevr[a] == entries@[i as int].0@ {
                                assert(prevr.contains(entries@[i as int].0@));
                                let j = choose|j: int|
                                    0 <= j < i && entries@[j].0@ == entries@[i as int].0@
                                        && entries@[j].1@.len() != 0;
                            }
                        }
                    }
                }
            } else {
                proof {
                    assert forall|e: Seq<char>|
                        (exists|j: int|
                            0 <= j < i + 1 && (#[trigger] entries@[j]).0@ == e
                                && entries@[j].1@.len() != 0) implies #[trigger] str_views(
                        r@,
                    ).contains(e) by {
                        let j = choose|j: int|
                            0 <= j < i + 1 && entries@[j].0@ == e && entries@[j].1@.len() != 0;
                        assert(j < i);
                    }
                }
            }
            i = i + 1;
        }
        proof {
            crate::orset::lemma_elems_map_contains(entries@);
            assert forall|e: Seq<char>| #[trigger]
                str_views(r@).contains(e) implies (self@.contains_key(e) && self@[e].len()
                != 0) by {
                let j = choose|j: int|
                    0 <= j < entries@.len() && entries@[j].0@ == e && entries@[j].1@.len() != 0;
                crate::orset::lemma_elems_map_index(entries@, j);
                str_views(entries@[j].1@).lemma_cardinality_of_empty_set_is_0();
            }
            assert forall|e: Seq<char>|
                self@.contains_key(e) && self@[e].len() != 0 implies #[trigger] str_views(
                r@,
            ).contains(e) by {
                let j = choose|j: int| 0 <= j < entries@.len() && entries@[j].0@ == e;
                crate::orset::lemma_elems_map_index(entries@, j);
                str_views(entries@[j].1@).lemma_cardinality_of_empty_set_is_0();
            }
        }
        r
    }

    /// A copy of the whole element map.
    #[verifier::loop_isolation(false)]
    pub fn get_map(&self) -> (r: Vec<(String, Vec<String>)>)
        requires
            self.wf(),
        ensures
            crate::orset::elems_map(r@) == self@,
    {
        let entries = &self.elements.elements;
        let mut r: Vec<(String, Vec<String>)> = Vec::new();
        let mut i: usize = 0;
        while i < entries.len()
            invariant
                i <= entries@.len(),
                r@.len() == i,
                forall|j: int|
                    0 <= j < i ==> (#[trigger] r@[j]).0@ == entries@[j].0@ && str_views(
                        r@[j].1@,
                    ) == str_views(entries@[j].1@),
            decreases entries@.len() - i,
        {
            let pair = (entries[i].0.clone(), dup_string_vec(&entries[i].1));
            r.push(pair);
            i = i + 1;
        }
        proof {
            lemma_elems_map_views(r@, entries@);
        }
        r
    }
}

/// Two association lists with the same element views and id views describe
/// the same map.
proof fn lemma_elems_map_views(a: Seq<(String, Vec<String>)>, b: Seq<(String, Vec<String>)>)
    requires
        a.len() == b.len(),
        forall|j: int|
            0 <= j < a.len() ==> (#[trigger] a[j]).0@ == b[j].0@ && str_views(a[j].1@) == str_views(
                b[j].1@,
            ),
    ensures
        crate::orset::elems_map(a) == crate::orset::elems_map(b),
    decreases a.len(),
{
    if a.len() > 0 {
        assert forall|j: int|
            0 <= j < a.drop_last().len() implies (#[trigger] a.drop_last()[j]).0@
            == b.drop_last()[j].0@ && str_views(a.drop_last()[j].1@) == str_views(
            b.drop_last()[j].1@,
        ) by {
            assert(a.drop_last()[j] == a[j] && b.drop_last()[j] == b[j]);
        }
        lemma_elems_map_views(a.drop_last(), b.drop_last());
        assert(a.last().0@ == b.last().0@);
        assert(str_views(a.last().1@).to_set() == str_views(b.last().1@).to_set());
    }
}

impl BFTCRDT<BFTORSetOp> for BFTORSet {
    open spec fn inv(&self) -> bool {
        self.wf()
    }

    open spec fn step(pre: Map<Seq<char>, Set<Seq<char>>>, node: NodeView<BFTORSetOpView>) -> Map<
        Seq<char>,
        Set<Seq<char>>,
    > {
        bft_orset_step(pre, node)
    }

    open spec fn sem_valid(
        g: Map<Seq<char>, NodeView<BFTORSetOpView>>,
        node: NodeView<BFTORSetOpView>,
    ) -> bool {
        bft_orset_sem_valid(g, node)
    }

    fn interpret_node(&mut self, node: &Node<BFTORSetOp>) {
        match &node.value {
            BFTORSetOp::Add(e) => {
                let id = node.get_hash();
                let op = ORSetOp::Add(e.clone(), id);
                self.elements.interpret_op(&op);
            },
            BFTORSetOp::Remove(e, ids) => {
                let op = ORSetOp::Remove(e.clone(), dup_string_vec(ids));
                self.elements.interpret_op(&op);
            },
        }
    }

    #[verifier::loop_isolation(false)]
    fn is_sem_valid(&self, node: &Node<BFTORSetOp>, hash_graph: &HashGraph<BFTORSetOp>) -> (r:
        bool) {
        match &node.value {
            BFTORSetOp::Add(_) => true,
            BFTORSetOp::Remove(e, ids) => {
                let ghost g = hash_graph@.nodes;
                let ghost idviews = str_views(ids@);
                let mut k: usize = 0;
                while k < ids.len()
                    invariant
                        k <= ids@.len(),
                        forall|k2: int|
                            0 <= k2 < k ==> remove_id_ok(g, node@, e@, #[trigger] idviews[k2]),
                    decreases ids@.len() - k,
                {
                    let id = &ids[k];
                    proof {
                        assert(idviews[k as int] == id@);
                    }
                    match hash_graph.get_node(id) {
                        None => {
                            proof {
                                assert(node@.value == BFTORSetOpView::Remove(e@, idviews));
                                assert(!remove_id_ok(g, node@, e@, idviews[k as int]));
                                assert(!<BFTORSet as BFTCRDT<BFTORSetOp>>::sem_valid(g, node@))
                                    by {
                                    if bft_orset_sem_valid(g, node@) {
                                        assert(node@.value->Remove_1 == idviews);
                                        assert(remove_id_ok(
                                            g,
                                            node@,
                                            node@.value->Remove_0,
                                            node@.value->Remove_1[k as int],
                                        ));
                                    }
                                };
                            }
                            return false;
                        },
                        Some(m) => {
                            proof {
                                assert(m@ == g[id@]);
                            }
                            match &m.value {
                                BFTORSetOp::Add(e2) => {
                                    if !e2.eq(e) {
                                        proof {
                                            assert(m@.value == BFTORSetOpView::Add(e2@));
                                            assert(node@.value == BFTORSetOpView::Remove(
                                                e@,
                                                idviews,
                                            ));
                                            assert(!remove_id_ok(g, node@, e@, idviews[k as int]));
                                            assert(!<BFTORSet as BFTCRDT<BFTORSetOp>>::sem_valid(
                                                g,
                                                node@,
                                            )) by {
                                                if bft_orset_sem_valid(g, node@) {
                                                    assert(node@.value->Remove_1 == idviews);
                                                    assert(remove_id_ok(
                                                        g,
                                                        node@,
                                                        node@.value->Remove_0,
                                                        node@.value->Remove_1[k as int],
                                                    ));
                                                }
                                            };
                                        }
                                        return false;
                                    }
                                },
                                BFTORSetOp::Remove(e3, ids3) => {
                                    proof {
                                        assert(m@.value == BFTORSetOpView::Remove(
                                            e3@,
                                            str_views(ids3@),
                                        ));
                                        assert(node@.value == BFTORSetOpView::Remove(e@, idviews));
                                        assert(!remove_id_ok(g, node@, e@, idviews[k as int]));
                                        assert(!<BFTORSet as BFTCRDT<BFTORSetOp>>::sem_valid(
                                            g,
                                            node@,
                                        ));
                                    }
                                    return false;
                                },
                            }
                            if !hash_graph.is_ancestor(id, node) {
                                proof {
                                    assert(node@.value == BFTORSetOpView::Remove(e@, idviews));
                                    assert(!remove_id_ok(g, node@, e@, idviews[k as int]));
                                    assert(!<BFTORSet as BFTCRDT<BFTORSetOp>>::sem_valid(
                                        g,
                                        node@,
                                    ));
                                }
                                return false;
                            }
                        },
                    }
                    k = k + 1;
                }
                proof {
                    assert forall|k2: int| 0 <= k2 < idviews.len() implies remove_id_ok(
                        g,
                        node@,
                        e@,
                        #[trigger] idviews[k2],
                    ) by {}
                    assert(node@.value == BFTORSetOpView::Remove(e@, idviews));
                    assert(<BFTORSet as BFTCRDT<BFTORSetOp>>::sem_valid(g, node@));
                }
                true
            },
        }
    }
}

} // verus!
