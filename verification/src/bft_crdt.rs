//! The Byzantine-fault-tolerant operation handler.
//!
//! A handler owns a hash graph, a CRDT interpreter and a buffer of pending
//! nodes.  A remote node is interpreted only once it is structurally valid
//! (all predecessors admitted) and semantically valid (the CRDT's own
//! predicate over ancestral content holds); until then it sits in the
//! buffer, and each admission re-evaluates the buffer to a fixed point.
//! Submitting a node whose digest is already stored changes nothing.

use crate::hash_graph::{node_digest, spec_struct_valid, HashGraph, HashType, Node, NodeView};
use crate::serialize::{views_of, DupValue, Serialize};
use vstd::prelude::*;

verus! {

/// A CRDT that can interpret validated operation nodes.  `step` is the
/// interpreter at the spec level and `sem_valid` the semantic-validity
/// predicate over the stored graph.
pub trait BFTCRDT<O: Serialize + DupValue>: View + Sized {
    /// The interpreter's state invariant.
    spec fn inv(&self) -> bool;

    /// The abstract state after interpreting a node.
    spec fn step(pre: Self::V, node: NodeView<O::V>) -> Self::V;

    /// Whether a node is semantically valid given the stored graph.
    spec fn sem_valid(g: Map<Seq<char>, NodeView<O::V>>, node: NodeView<O::V>) -> bool;

    /// Interpret a validated node.
    fn interpret_node(&mut self, node: &Node<O>)
        requires
            old(self).inv(),
        ensures
            final(self).inv(),
            final(self)@ == Self::step(old(self)@, node@),
    ;

    /// Decide semantic validity of a structurally valid node.
    fn is_sem_valid(&self, node: &Node<O>, hash_graph: &HashGraph<O>) -> (r: bool)
        requires
            self.inv(),
            hash_graph.wf(),
            spec_struct_valid(hash_graph@.nodes, node@),
        ensures
            r == Self::sem_valid(hash_graph@.nodes, node@),
    ;
}

/// The graph after admitting a node: unchanged when the digest is already
/// stored.
pub open spec fn spec_admit<O: Serialize>(
    g: Map<Seq<char>, NodeView<O::V>>,
    n: NodeView<O::V>,
) -> Map<Seq<char>, NodeView<O::V>> {
    if g.contains_key(node_digest::<O>(n)) {
        g
    } else {
        g.insert(node_digest::<O>(n), n)
    }
}

/// One pass over the pending buffer, in order: a node already stored is
/// dropped; a node that has become structurally and semantically valid is
/// admitted and interpreted; every other node is kept.
pub open spec fn eval_pass<O: Serialize + DupValue, T: BFTCRDT<O>>(
    g: Map<Seq<char>, NodeView<O::V>>,
    c: T::V,
    pend: Seq<NodeView<O::V>>,
) -> (Map<Seq<char>, NodeView<O::V>>, T::V, Seq<NodeView<O::V>>)
    decreases pend.len(),
{
    if pend.len() == 0 {
        (g, c, Seq::empty())
    } else {
        let n = pend[0];
        if g.contains_key(node_digest::<O>(n)) {
            eval_pass::<O, T>(g, c, pend.drop_first())
        } else if spec_struct_valid(g, n) && T::sem_valid(g, n) {
            eval_pass::<O, T>(g.insert(node_digest::<O>(n), n), T::step(c, n), pend.drop_first())
        } else {
            let rest = eval_pass::<O, T>(g, c, pend.drop_first());
            (rest.0, rest.1, seq![n] + rest.2)
        }
    }
}

/// A pass never keeps more nodes than it started with.
pub proof fn lemma_eval_pass_len<O: Serialize + DupValue, T: BFTCRDT<O>>(
    g: Map<Seq<char>, NodeView<O::V>>,
    c: T::V,
    pend: Seq<NodeView<O::V>>,
)
    ensures
        eval_pass::<O, T>(g, c, pend).2.len() <= pend.len(),
    decreases pend.len(),
{
    if pend.len() > 0 {
        let n = pend[0];
        if g.contains_key(node_digest::<O>(n)) {
            lemma_eval_pass_len::<O, T>(g, c, pend.drop_first());
        } else if spec_struct_valid(g, n) && T::sem_valid(g, n) {
            lemma_eval_pass_len::<O, T>(
                g.insert(node_digest::<O>(n), n),
                T::step(c, n),
                pend.drop_first(),
            );
        } else {
            lemma_eval_pass_len::<O, T>(g, c, pend.drop_first());
        }
    }
}

/// Everything a pass keeps was in the buffer it started from.
pub proof fn lemma_eval_pass_kept_subset<O: Serialize + DupValue, T: BFTCRDT<O>>(
    g: Map<Seq<char>, NodeView<O::V>>,
    c: T::V,
    pend: Seq<NodeView<O::V>>,
)
    ensures
        forall|x: NodeView<O::V>|
            #[trigger] eval_pass::<O, T>(g, c, pend).2.contains(x) ==> pend.contains(x),
    decreases pend.len(),
{
    if pend.len() > 0 {
        let n = pend[0];
        let rest = pend.drop_first();
        assert forall|x: NodeView<O::V>| #[trigger]
            eval_pass::<O, T>(g, c, pend).2.contains(x) implies pend.contains(x) by {
            if g.contains_key(node_digest::<O>(n)) {
                lemma_eval_pass_kept_subset::<O, T>(g, c, rest);
                assert(eval_pass::<O, T>(g, c, pend).2 == eval_pass::<O, T>(g, c, rest).2);
                assert(eval_pass::<O, T>(g, c, rest).2.contains(x));
                assert(rest.contains(x));
                let j = choose|j: int| 0 <= j < rest.len() && rest[j] == x;
                assert(pend[j + 1] == x);
            } else if spec_struct_valid(g, n) && T::sem_valid(g, n) {
                let g2 = g.insert(node_digest::<O>(n), n);
                let c2 = T::step(c, n);
                lemma_eval_pass_kept_subset::<O, T>(g2, c2, rest);
                assert(eval_pass::<O, T>(g, c, pend).2 == eval_pass::<O, T>(g2, c2, rest).2);
                assert(eval_pass::<O, T>(g2, c2, rest).2.contains(x));
                assert(rest.contains(x));
                let j = choose|j: int| 0 <= j < rest.len() && rest[j] == x;
                assert(pend[j + 1] == x);
            } else {
                let kept = eval_pass::<O, T>(g, c, pend).2;
                let krest = eval_pass::<O, T>(g, c, rest).2;
                assert(kept == seq![n] + krest);
                let j = choose|j: int| 0 <= j < kept.len() && kept[j] == x;
                if j == 0 {
                    assert(x == n);
                    assert(pend[0] == x);
                } else {
                    assert(krest[j - 1] == x);
                    assert(krest.contains(x));
                    lemma_eval_pass_kept_subset::<O, T>(g, c, rest);
                    assert(rest.contains(x));
                    let j2 = choose|j2: int| 0 <= j2 < rest.len() && rest[j2] == x;
                    assert(pend[j2 + 1] == x);
                }
            }
        }
    }
}

/// Re-evaluation of the pending buffer: repeat passes until one makes no
/// progress.
pub open spec fn eval_pending<O: Serialize + DupValue, T: BFTCRDT<O>>(
    g: Map<Seq<char>, NodeView<O::V>>,
    c: T::V,
    pend: Seq<NodeView<O::V>>,
) -> (Map<Seq<char>, NodeView<O::V>>, T::V, Seq<NodeView<O::V>>)
    decreases pend.len(),
{
    let pass = eval_pass::<O, T>(g, c, pend);
    if pass.2.len() < pend.len() {
        eval_pending::<O, T>(pass.0, pass.1, pass.2)
    } else {
        pass
    }
}

/// The graph after admitting a sequence of nodes in order.
pub open spec fn admit_seq<O: Serialize>(
    g: Map<Seq<char>, NodeView<O::V>>,
    ns: Seq<NodeView<O::V>>,
) -> Map<Seq<char>, NodeView<O::V>>
    decreases ns.len(),
{
    if ns.len() == 0 {
        g
    } else {
        admit_seq::<O>(spec_admit::<O>(g, ns[0]), ns.drop_first())
    }
}

/// The nodes of an interpretation order respect causality relative to the
/// base graph: each node is structurally valid once everything before it is
/// admitted, so its predecessors are always stored first.
pub open spec fn causally_ordered<O: Serialize>(
    g: Map<Seq<char>, NodeView<O::V>>,
    ns: Seq<NodeView<O::V>>,
) -> bool
    decreases ns.len(),
{
    ns.len() == 0 || (spec_struct_valid(g, ns[0]) && causally_ordered::<O>(
        spec_admit::<O>(g, ns[0]),
        ns.drop_first(),
    ))
}

/// The nodes a pass admits and interprets, in interpretation order.
pub open spec fn pass_admitted<O: Serialize + DupValue, T: BFTCRDT<O>>(
    g: Map<Seq<char>, NodeView<O::V>>,
    c: T::V,
    pend: Seq<NodeView<O::V>>,
) -> Seq<NodeView<O::V>>
    decreases pend.len(),
{
    if pend.len() == 0 {
        Seq::empty()
    } else {
        let n = pend[0];
        if g.contains_key(node_digest::<O>(n)) {
            pass_admitted::<O, T>(g, c, pend.drop_first())
        } else if spec_struct_valid(g, n) && T::sem_valid(g, n) {
            seq![n] + pass_admitted::<O, T>(
                g.insert(node_digest::<O>(n), n),
                T::step(c, n),
                pend.drop_first(),
            )
        } else {
            pass_admitted::<O, T>(g, c, pend.drop_first())
        }
    }
}

/// The nodes re-evaluation admits and interprets, in interpretation order.
pub open spec fn pending_admitted<O: Serialize + DupValue, T: BFTCRDT<O>>(
    g: Map<Seq<char>, NodeView<O::V>>,
    c: T::V,
    pend: Seq<NodeView<O::V>>,
) -> Seq<NodeView<O::V>>
    decreases pend.len(),
{
    let pass = eval_pass::<O, T>(g, c, pend);
    if pass.2.len() < pend.len() {
        pass_admitted::<O, T>(g, c, pend) + pending_admitted::<O, T>(pass.0, pass.1, pass.2)
    } else {
        pass_admitted::<O, T>(g, c, pend)
    }
}

/// Admitting a concatenation is admitting the parts in turn.
pub proof fn lemma_admit_seq_concat<O: Serialize>(
    g: Map<Seq<char>, NodeView<O::V>>,
    a: Seq<NodeView<O::V>>,
    b: Seq<NodeView<O::V>>,
)
    ensures
        admit_seq::<O>(g, a + b) == admit_seq::<O>(admit_seq::<O>(g, a), b),
    decreases a.len(),
{
    if a.len() == 0 {
        assert(a + b =~= b);
    } else {
        assert((a + b)[0] == a[0]);
        assert((a + b).drop_first() =~= a.drop_first() + b);
        lemma_admit_seq_concat::<O>(spec_admit::<O>(g, a[0]), a.drop_first(), b);
    }
}

/// A causally ordered sequence extends by one that is causally ordered
/// from the grown graph.
pub proof fn lemma_causally_ordered_concat<O: Serialize>(
    g: Map<Seq<char>, NodeView<O::V>>,
    a: Seq<NodeView<O::V>>,
    b: Seq<NodeView<O::V>>,
)
    requires
        causally_ordered::<O>(g, a),
        causally_ordered::<O>(admit_seq::<O>(g, a), b),
    ensures
        causally_ordered::<O>(g, a + b),
    decreases a.len(),
{
    if a.len() == 0 {
        assert(a + b =~= b);
        assert(admit_seq::<O>(g, a) == g);
    } else {
        assert((a + b)[0] == a[0]);
        assert((a + b).drop_first() =~= a.drop_first() + b);
        assert(admit_seq::<O>(g, a) == admit_seq::<O>(
            spec_admit::<O>(g, a[0]),
            a.drop_first(),
        ));
        lemma_causally_ordered_concat::<O>(spec_admit::<O>(g, a[0]), a.drop_first(), b);
    }
}

/// A pass interprets its admissions in a causal order, and ends with
/// exactly those admissions in the graph.
pub proof fn lemma_pass_admitted_causal<O: Serialize + DupValue, T: BFTCRDT<O>>(
    g: Map<Seq<char>, NodeView<O::V>>,
    c: T::V,
    pend: Seq<NodeView<O::V>>,
)
    ensures
        causally_ordered::<O>(g, pass_admitted::<O, T>(g, c, pend)),
        eval_pass::<O, T>(g, c, pend).0 == admit_seq::<O>(g, pass_admitted::<O, T>(g, c, pend)),
    decreases pend.len(),
{
    if pend.len() > 0 {
        let n = pend[0];
        let rest = pend.drop_first();
        let d = node_digest::<O>(n);
        if g.contains_key(d) {
            lemma_pass_admitted_causal::<O, T>(g, c, rest);
        } else if spec_struct_valid(g, n) && T::sem_valid(g, n) {
            let g2 = g.insert(d, n);
            let c2 = T::step(c, n);
            lemma_pass_admitted_causal::<O, T>(g2, c2, rest);
            let tail = pass_admitted::<O, T>(g2, c2, rest);
            let whole = pass_admitted::<O, T>(g, c, pend);
            assert(whole == seq![n] + tail);
            assert(whole[0] == n);
            assert(whole.drop_first() =~= tail);
            assert(spec_admit::<O>(g, n) == g2);
        } else {
            lemma_pass_admitted_causal::<O, T>(g, c, rest);
        }
    }
}

/// Causal safety of re-evaluation: everything it interprets, it interprets
/// in an order where each node's predecessors are admitted first, and the
/// final graph is the base graph plus exactly those admissions.
pub proof fn lemma_pending_admitted_causal<O: Serialize + DupValue, T: BFTCRDT<O>>(
    g: Map<Seq<char>, NodeView<O::V>>,
    c: T::V,
    pend: Seq<NodeView<O::V>>,
)
    ensures
        causally_ordered::<O>(g, pending_admitted::<O, T>(g, c, pend)),
        eval_pending::<O, T>(g, c, pend).0 == admit_seq::<O>(
            g,
            pending_admitted::<O, T>(g, c, pend),
        ),
    decreases pend.len(),
{
    let pass = eval_pass::<O, T>(g, c, pend);
    lemma_pass_admitted_causal::<O, T>(g, c, pend);
    if pass.2.len() < pend.len() {
        lemma_pending_admitted_causal::<O, T>(pass.0, pass.1, pass.2);
        lemma_causally_ordered_concat::<O>(
            g,
            pass_admitted::<O, T>(g, c, pend),
            pending_admitted::<O, T>(pass.0, pass.1, pass.2),
        );
        lemma_admit_seq_concat::<O>(
            g,
            pass_admitted::<O, T>(g, c, pend),
            pending_admitted::<O, T>(pass.0, pass.1, pass.2),
        );
    }
}

/// Admission preserves predecessor-closure: a structurally valid node
/// brings no dangling references.
pub proof fn lemma_closed_admit<O: Serialize>(
    g: Map<Seq<char>, NodeView<O::V>>,
    n: NodeView<O::V>,
)
    requires
        crate::hash_graph::graph_closed(g),
        spec_struct_valid(g, n),
    ensures
        crate::hash_graph::graph_closed(spec_admit::<O>(g, n)),
{
    let d = node_digest::<O>(n);
    if !g.contains_key(d) {
        let g2 = g.insert(d, n);
        assert forall|d2: Seq<char>, k: int|
            g2.contains_key(d2) && 0 <= k < g2[d2].predecessors.len() implies g2.contains_key(
            #[trigger] g2[d2].predecessors[k],
        ) by {
            if d2 == d {
                assert(g.contains_key(n.predecessors[k]));
            } else {
                assert(g2[d2] == g[d2]);
                assert(g.contains_key(g[d2].predecessors[k]));
            }
        }
    }
}

/// Each prefix of a causal interpretation order over a predecessor-closed
/// graph is itself closed, and the next node is structurally valid against
/// it.
pub proof fn lemma_causal_prefix<O: Serialize>(
    g: Map<Seq<char>, NodeView<O::V>>,
    ns: Seq<NodeView<O::V>>,
    i: int,
)
    requires
        crate::hash_graph::graph_closed(g),
        causally_ordered::<O>(g, ns),
        0 <= i <= ns.len(),
    ensures
        crate::hash_graph::graph_closed(admit_seq::<O>(g, ns.take(i))),
        i < ns.len() ==> spec_struct_valid(admit_seq::<O>(g, ns.take(i)), ns[i]),
    decreases i,
{
    if i == 0 {
        assert(ns.take(0) =~= Seq::<NodeView<O::V>>::empty());
        assert(admit_seq::<O>(g, ns.take(0)) == g);
        if ns.len() > 0 {
            assert(spec_struct_valid(g, ns[0]));
        }
    } else {
        let g2 = spec_admit::<O>(g, ns[0]);
        lemma_closed_admit::<O>(g, ns[0]);
        assert(causally_ordered::<O>(g2, ns.drop_first()));
        lemma_causal_prefix::<O>(g2, ns.drop_first(), i - 1);
        assert(ns.take(i)[0] == ns[0]);
        assert(ns.take(i).drop_first() =~= ns.drop_first().take(i - 1));
        assert(admit_seq::<O>(g, ns.take(i)) == admit_seq::<O>(g2, ns.drop_first().take(i - 1)));
        if i < ns.len() {
            assert(ns.drop_first()[i - 1] == ns[i]);
        }
    }
}

/// Causal safety of interpretation: along a causal interpretation order
/// over a predecessor-closed graph, everything reachable from a node's
/// predecessors — every one of its ancestors — is already stored at the
/// point the node itself is interpreted.
pub proof fn lemma_causal_order_ancestors<O: Serialize>(
    g: Map<Seq<char>, NodeView<O::V>>,
    ns: Seq<NodeView<O::V>>,
    i: int,
    a: Seq<char>,
)
    requires
        crate::hash_graph::graph_closed(g),
        causally_ordered::<O>(g, ns),
        0 <= i < ns.len(),
        exists|k: int|
            0 <= k < ns[i].predecessors.len() && crate::hash_graph::reachable(
                admit_seq::<O>(g, ns.take(i)),
                #[trigger] ns[i].predecessors[k],
                a,
            ),
    ensures
        admit_seq::<O>(g, ns.take(i)).contains_key(a),
{
    lemma_causal_prefix::<O>(g, ns, i);
    let gi = admit_seq::<O>(g, ns.take(i));
    let k = choose|k: int|
        0 <= k < ns[i].predecessors.len() && crate::hash_graph::reachable(
            gi,
            #[trigger] ns[i].predecessors[k],
            a,
        );
    let steps = choose|steps: nat|
        crate::hash_graph::reaches(gi, ns[i].predecessors[k], a, steps);
    assert(gi.contains_key(ns[i].predecessors[k]));
    crate::hash_graph::lemma_reachable_closed(gi, ns[i].predecessors[k], a, steps);
}

/// A remote submission that is admitted interprets the submitted node and
/// then the re-evaluated buffer, and that whole interpretation order is
/// causal: no node is ever interpreted before its predecessors.
pub proof fn lemma_remote_interpretation_causal<O: Serialize + DupValue, T: BFTCRDT<O>>(
    g: Map<Seq<char>, NodeView<O::V>>,
    c: T::V,
    p0: Seq<NodeView<O::V>>,
    nv: NodeView<O::V>,
)
    requires
        !g.contains_key(node_digest::<O>(nv)),
        spec_struct_valid(g, nv),
        T::sem_valid(g, nv),
    ensures
        causally_ordered::<O>(
            g,
            seq![nv] + pending_admitted::<O, T>(
                g.insert(node_digest::<O>(nv), nv),
                T::step(c, nv),
                p0,
            ),
        ),
{
    let g2 = g.insert(node_digest::<O>(nv), nv);
    let tail = pending_admitted::<O, T>(g2, T::step(c, nv), p0);
    lemma_pending_admitted_causal::<O, T>(g2, T::step(c, nv), p0);
    assert(spec_admit::<O>(g, nv) == g2);
    assert(causally_ordered::<O>(g, seq![nv])) by {
        assert(seq![nv][0] == nv);
        assert(seq![nv].drop_first() =~= Seq::<NodeView<O::V>>::empty());
        assert(causally_ordered::<O>(g2, Seq::<NodeView<O::V>>::empty()));
    }
    assert(admit_seq::<O>(g, seq![nv]) == g2) by {
        assert(seq![nv][0] == nv);
        assert(seq![nv].drop_first() =~= Seq::<NodeView<O::V>>::empty());
        assert(admit_seq::<O>(g2, Seq::<NodeView<O::V>>::empty()) == g2);
    }
    lemma_causally_ordered_concat::<O>(g, seq![nv], tail);
}

/// Admission only grows the stored graph: `eval_pass` keeps every stored
/// node, under its key.
pub proof fn lemma_eval_pass_grows<O: Serialize + DupValue, T: BFTCRDT<O>>(
    g: Map<Seq<char>, NodeView<O::V>>,
    c: T::V,
    pend: Seq<NodeView<O::V>>,
)
    ensures
        g.submap_of(eval_pass::<O, T>(g, c, pend).0),
    decreases pend.len(),
{
    if pend.len() > 0 {
        let n = pend[0];
        if g.contains_key(node_digest::<O>(n)) {
            lemma_eval_pass_grows::<O, T>(g, c, pend.drop_first());
        } else if spec_struct_valid(g, n) && T::sem_valid(g, n) {
            let g2 = g.insert(node_digest::<O>(n), n);
            lemma_eval_pass_grows::<O, T>(g2, T::step(c, n), pend.drop_first());
            assert(g.submap_of(g2));
            vstd::map_lib::lemma_submap_of_trans(g, g2, eval_pass::<O, T>(g, c, pend).0);
        } else {
            lemma_eval_pass_grows::<O, T>(g, c, pend.drop_first());
        }
    }
}

/// Admission monotonicity through re-evaluation: once a digest is stored it
/// stays stored, with the same node.
pub proof fn lemma_eval_pending_grows<O: Serialize + DupValue, T: BFTCRDT<O>>(
    g: Map<Seq<char>, NodeView<O::V>>,
    c: T::V,
    pend: Seq<NodeView<O::V>>,
)
    ensures
        g.submap_of(eval_pending::<O, T>(g, c, pend).0),
    decreases pend.len(),
{
    let pass = eval_pass::<O, T>(g, c, pend);
    lemma_eval_pass_grows::<O, T>(g, c, pend);
    if pass.2.len() < pend.len() {
        lemma_eval_pending_grows::<O, T>(pass.0, pass.1, pass.2);
        vstd::map_lib::lemma_submap_of_trans(g, pass.0, eval_pending::<O, T>(g, c, pend).0);
    }
}

/// Convergence for one pair of concurrent submissions: two unstored nodes
/// with distinct digests, both valid against the same graph, can be
/// admitted in either order; if the interpreter's steps for them commute,
/// both orders end in the same graph and the same state, and neither node
/// is ever buffered.
pub proof fn lemma_pairwise_convergence<O: Serialize + DupValue, T: BFTCRDT<O>>(
    g: Map<Seq<char>, NodeView<O::V>>,
    c: T::V,
    n1: NodeView<O::V>,
    n2: NodeView<O::V>,
)
    requires
        !g.contains_key(node_digest::<O>(n1)),
        !g.contains_key(node_digest::<O>(n2)),
        node_digest::<O>(n1) != node_digest::<O>(n2),
        spec_struct_valid(g, n1),
        T::sem_valid(g, n1),
        spec_struct_valid(g, n2),
        T::sem_valid(g, n2),
        T::sem_valid(spec_admit::<O>(g, n1), n2),
        T::sem_valid(spec_admit::<O>(g, n2), n1),
        T::step(T::step(c, n1), n2) == T::step(T::step(c, n2), n1),
    ensures
        spec_struct_valid(spec_admit::<O>(g, n1), n2),
        spec_struct_valid(spec_admit::<O>(g, n2), n1),
        spec_admit::<O>(spec_admit::<O>(g, n1), n2) == spec_admit::<O>(
            spec_admit::<O>(g, n2),
            n1,
        ),
{
    let d1 = node_digest::<O>(n1);
    let d2 = node_digest::<O>(n2);
    assert(spec_admit::<O>(spec_admit::<O>(g, n1), n2) =~= spec_admit::<O>(
        spec_admit::<O>(g, n2),
        n1,
    ));
}

/// Admission monotonicity at the protocol level: whatever a remote
/// submission does — no-op, buffering, or admission with re-evaluation —
/// every node stored before is still stored after, under the same digest.
pub proof fn lemma_remote_admission_monotone<O: Serialize + DupValue, T: BFTCRDT<O>>(
    g0: Map<Seq<char>, NodeView<O::V>>,
    c0: T::V,
    p0: Seq<NodeView<O::V>>,
    nv: NodeView<O::V>,
)
    ensures
        g0.submap_of(
            if g0.contains_key(node_digest::<O>(nv)) || !spec_struct_valid(g0, nv)
                || !T::sem_valid(g0, nv) {
                g0
            } else {
                eval_pending::<O, T>(g0.insert(node_digest::<O>(nv), nv), T::step(c0, nv), p0).0
            },
        ),
{
    if !g0.contains_key(node_digest::<O>(nv)) && spec_struct_valid(g0, nv) && T::sem_valid(
        g0,
        nv,
    ) {
        let g1 = g0.insert(node_digest::<O>(nv), nv);
        lemma_eval_pending_grows::<O, T>(g1, T::step(c0, nv), p0);
        assert(g0.submap_of(g1));
        vstd::map_lib::lemma_submap_of_trans(
            g0,
            g1,
            eval_pending::<O, T>(g1, T::step(c0, nv), p0).0,
        );
    }
}

/// A graph and an interpreter, without a pending buffer: a remote node that
/// is not valid yet is simply ignored.
pub struct BFTCRDTTester<O, T> {
    pub crdt: T,
    pub hash_graph: HashGraph<O>,
}

impl<O: Serialize + DupValue, T: BFTCRDT<O>> BFTCRDTTester<O, T> {
    /// The tester invariant.
    pub open spec fn wf(&self) -> bool {
        self.crdt.inv() && self.hash_graph.wf()
    }

    /// A fresh tester around the given interpreter.
    pub fn new(crdt: T) -> (r: BFTCRDTTester<O, T>)
        requires
            crdt.inv(),
        ensures
            r.wf(),
            r.crdt == crdt,
            r.hash_graph@.nodes == Map::<Seq<char>, NodeView<O::V>>::empty(),
    {
        BFTCRDTTester { crdt, hash_graph: HashGraph::new() }
    }

    /// Admit and interpret a remote node if it is structurally and
    /// semantically valid; otherwise do nothing.
    pub fn handle_node(&mut self, remote_node: Node<O>)
        requires
            old(self).wf(),
        ensures
            final(self).wf(),
            ({
                let g0 = old(self).hash_graph@.nodes;
                let c0 = old(self).crdt@;
                let nv = remote_node@;
                if g0.contains_key(node_digest::<O>(nv)) || !spec_struct_valid(g0, nv)
                    || !T::sem_valid(g0, nv) {
                    final(self).hash_graph@.nodes == g0 && final(self).crdt@ == c0
                } else {
                    final(self).hash_graph@.nodes == g0.insert(node_digest::<O>(nv), nv) && final(self).crdt@ == T::step(c0, nv)
                }
            }),
    {
        let hash = remote_node.get_hash();
        if self.hash_graph.contains(&hash) {
            return ;
        }
        let struct_valid = self.hash_graph.is_structurally_valid(&remote_node);
        if !struct_valid {
            return ;
        }
        let sem_valid = self.crdt.is_sem_valid(&remote_node, &self.hash_graph);
        if sem_valid {
            self.crdt.interpret_node(&remote_node);
            self.hash_graph.add_node(remote_node);
        }
    }
}

/// The full handler: a graph, an interpreter and the pending buffer.
pub struct BFTCRDTHandler<O, T> {
    pub crdt: T,
    pub hash_graph: HashGraph<O>,
    pub pending_nodes: Vec<Node<O>>,
}

impl<O: Serialize + DupValue, T: BFTCRDT<O>> BFTCRDTHandler<O, T> {
    /// The handler invariant.
    pub open spec fn wf(&self) -> bool {
        self.crdt.inv() && self.hash_graph.wf()
    }

    /// The views of the buffered nodes.
    pub open spec fn pending_views(&self) -> Seq<NodeView<O::V>> {
        views_of(self.pending_nodes@)
    }

    /// A fresh handler around the given interpreter.
    pub fn new(crdt: T) -> (r: BFTCRDTHandler<O, T>)
        requires
            crdt.inv(),
        ensures
            r.wf(),
            r.crdt == crdt,
            r.hash_graph@.nodes == Map::<Seq<char>, NodeView<O::V>>::empty(),
            r.pending_views() == Seq::<NodeView<O::V>>::empty(),
    {
        let r = BFTCRDTHandler { crdt, hash_graph: HashGraph::new(), pending_nodes: Vec::new() };
        proof {
            assert(r.pending_views() =~= Seq::<NodeView<O::V>>::empty());
        }
        r
    }

    /// Append a local operation with the current heads as predecessors and
    /// interpret it.  A local node descends from everything known locally,
    /// so it bypasses the semantic predicate.
    pub fn handle_local_op(&mut self, op: O) -> (r: HashType)
        requires
            old(self).wf(),
        ensures
            final(self).wf(),
            ({
                let nv = (NodeView {
                    predecessors: old(self).hash_graph@.heads,
                    value: op@,
                });
                let g0 = old(self).hash_graph@.nodes;
                &&& r@ == node_digest::<O>(nv)
                &&& final(self).crdt@ == T::step(old(self).crdt@, nv)
                &&& final(self).hash_graph@.nodes == spec_admit::<O>(g0, nv)
                &&& final(self).pending_views() == old(self).pending_views()
            }),
    {
        let node = Node::<O> { predecessors: crate::serialize::dup_string_vec(&self.hash_graph.heads), value: op };
        proof {
            assert(node@.predecessors == self.hash_graph@.heads);
            assert forall|k: int| 0 <= k < node@.predecessors.len() implies self.hash_graph@.nodes.contains_key(
                #[trigger] node@.predecessors[k],
            ) by {
                assert(crate::serialize::str_views(self.hash_graph.heads@).contains(
                    crate::serialize::str_views(self.hash_graph.heads@)[k],
                ));
            }
        }
        let hash = node.get_hash();
        self.crdt.interpret_node(&node);
        self.hash_graph.add_node(node);
        hash
    }

    /// Whether a node with this digest has been admitted.
    pub fn contains(&self, d: &HashType) -> (r: bool)
        requires
            self.wf(),
        ensures
            r == self.hash_graph@.nodes.contains_key(d@),
    {
        self.hash_graph.contains(d)
    }

    /// The current frontier of the causal history.
    pub fn heads(&self) -> (r: Vec<HashType>)
        ensures
            crate::serialize::str_views(r@) == self.hash_graph@.heads,
    {
        self.hash_graph.heads()
    }

    /// The admission protocol for a remote node: buffer it until it is
    /// structurally and semantically valid; once admitted, interpret it and
    /// re-evaluate the buffer to a fixed point.  A node whose digest is
    /// already stored changes nothing.
    pub fn handle_remote_node(&mut self, remote_node: Node<O>)
        requires
            old(self).wf(),
        ensures
            final(self).wf(),
            ({
                let g0 = old(self).hash_graph@.nodes;
                let c0 = old(self).crdt@;
                let p0 = old(self).pending_views();
                let nv = remote_node@;
                if g0.contains_key(node_digest::<O>(nv)) {
                    final(self).hash_graph@.nodes == g0 && final(self).crdt@ == c0 && final(self).pending_views() == p0
                } else if !spec_struct_valid(g0, nv) || !T::sem_valid(g0, nv) {
                    final(self).hash_graph@.nodes == g0 && final(self).crdt@ == c0 && final(self).pending_views() == p0.push(nv)
                } else {
                    let after = eval_pending::<O, T>(
                        g0.insert(node_digest::<O>(nv), nv),
                        T::step(c0, nv),
                        p0,
                    );
                    final(self).hash_graph@.nodes == after.0 && final(self).crdt@ == after.1
                        && final(self).pending_views() == after.2
                }
            }),
    {
        let ghost p0 = self.pending_views();
        let hash = remote_node.get_hash();
        if self.hash_graph.contains(&hash) {
            return ;
        }
        let struct_valid = self.hash_graph.is_structurally_valid(&remote_node);
        if !struct_valid {
            self.pending_nodes.push(remote_node);
            proof {
                assert(self.pending_views() =~= p0.push(self.pending_nodes@.last()@));
            }
            return ;
        }
        let sem_valid = self.crdt.is_sem_valid(&remote_node, &self.hash_graph);
        if sem_valid {
            self.crdt.interpret_node(&remote_node);
            self.hash_graph.add_node(remote_node);
            self.handle_pending_nodes();
        } else {
            self.pending_nodes.push(remote_node);
            proof {
                assert(self.pending_views() =~= p0.push(self.pending_nodes@.last()@));
            }
        }
    }

    /// Re-evaluate the pending buffer: admit and interpret, in order, every
    /// buffered node that has become valid, and repeat until a pass admits
    /// nothing.
    #[verifier::loop_isolation(false)]
    pub fn handle_pending_nodes(&mut self)
        requires
            old(self).wf(),
        ensures
            final(self).wf(),
            ({
                let after = eval_pending::<O, T>(
                    old(self).hash_graph@.nodes,
                    old(self).crdt@,
                    old(self).pending_views(),
                );
                final(self).hash_graph@.nodes == after.0 && final(self).crdt@ == after.1 && final(self).pending_views() == after.2
            }),
    {
        let ghost gg = self.hash_graph@.nodes;
        let ghost cc = self.crdt@;
        let ghost pp = self.pending_views();
        loop
            invariant
                self.wf(),
                eval_pending::<O, T>(
                    self.hash_graph@.nodes,
                    self.crdt@,
                    self.pending_views(),
                ) == eval_pending::<O, T>(gg, cc, pp),
            decreases self.pending_nodes@.len(),
        {
            let ghost g0p = self.hash_graph@.nodes;
            let ghost c0p = self.crdt@;
            let ghost pviews = self.pending_views();
            let before_len = self.pending_nodes.len();
            let mut kept: Vec<Node<O>> = Vec::new();
            let mut i: usize = 0;
            proof {
                assert(views_of(kept@) =~= Seq::<NodeView<O::V>>::empty());
                assert(pviews.skip(0) =~= pviews);
            }
            while i < self.pending_nodes.len()
                invariant
                    i <= self.pending_nodes@.len(),
                    self.pending_views() == pviews,
                    self.wf(),
                    eval_pass::<O, T>(g0p, c0p, pviews).0 == eval_pass::<O, T>(
                        self.hash_graph@.nodes,
                        self.crdt@,
                        pviews.skip(i as int),
                    ).0,
                    eval_pass::<O, T>(g0p, c0p, pviews).1 == eval_pass::<O, T>(
                        self.hash_graph@.nodes,
                        self.crdt@,
                        pviews.skip(i as int),
                    ).1,
                    eval_pass::<O, T>(g0p, c0p, pviews).2 == views_of(kept@) + eval_pass::<O, T>(
                        self.hash_graph@.nodes,
                        self.crdt@,
                        pviews.skip(i as int),
                    ).2,
                decreases self.pending_nodes@.len() - i,
            {
                let ghost gi = self.hash_graph@.nodes;
                let ghost ci = self.crdt@;
                let ghost nv = pviews.skip(i as int)[0];
                proof {
                    assert(pviews.skip(i as int)[0] == pviews[i as int]);
                    assert(pviews.skip(i as int).drop_first() =~= pviews.skip(i + 1));
                    assert(pviews[i as int] == self.pending_nodes@[i as int]@);
                }
                let node = &self.pending_nodes[i];
                let hash = node.get_hash();
                if self.hash_graph.contains(&hash) {
                    // already stored: drop it
                } else {
                    let struct_valid = self.hash_graph.is_structurally_valid(node);
                    if struct_valid {
                        let sem_valid = self.crdt.is_sem_valid(node, &self.hash_graph);
                        if sem_valid {
                            let owned = node.dup();
                            self.crdt.interpret_node(&owned);
                            self.hash_graph.add_node(owned);
                        } else {
                            let ghost keptv = views_of(kept@);
                            kept.push(node.dup());
                            proof {
                                assert(views_of(kept@) =~= keptv.push(nv));
                                assert(seq![nv] + eval_pass::<O, T>(
                                    gi,
                                    ci,
                                    pviews.skip(i + 1),
                                ).2 =~= seq![nv] + eval_pass::<O, T>(gi, ci, pviews.skip(i + 1)).2);
                                assert(keptv.push(nv) + eval_pass::<O, T>(
                                    gi,
                                    ci,
                                    pviews.skip(i + 1),
                                ).2 =~= keptv + (seq![nv] + eval_pass::<O, T>(
                                    gi,
                                    ci,
                                    pviews.skip(i + 1),
                                ).2));
                            }
                        }
                    } else {
                        let ghost keptv = views_of(kept@);
                        kept.push(node.dup());
                        proof {
                            assert(views_of(kept@) =~= keptv.push(nv));
                            assert(keptv.push(nv) + eval_pass::<O, T>(
                                gi,
                                ci,
                                pviews.skip(i + 1),
                            ).2 =~= keptv + (seq![nv] + eval_pass::<O, T>(
                                gi,
                                ci,
                                pviews.skip(i + 1),
                            ).2));
                        }
                    }
                }
                i = i + 1;
            }
            proof {
                assert(pviews.skip(pviews.len() as int) =~= Seq::<NodeView<O::V>>::empty());
                assert(views_of(kept@) + Seq::<NodeView<O::V>>::empty() =~= views_of(kept@));
            }
            let progress = kept.len() < before_len;
            self.pending_nodes = kept;
            proof {
                lemma_eval_pass_len::<O, T>(g0p, c0p, pviews);
            }
            if !progress {
                break ;
            }
        }
    }
}

} // verus!
