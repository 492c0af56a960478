//! The Byzantine-fault-tolerant replicated growable array.
//!
//! An element's id is the pair of a user-chosen id and the digest of the
//! node that inserted it, ordered lexicographically with the user id first.
//! The user id lets the generating peer steer where an element lands among
//! concurrent inserts; the digest makes the id unique.  An insert or delete
//! that names a reference element is semantically valid only if the
//! referenced insert is stored, carries the claimed user id, and is an
//! ancestor of the node.

use crate::bft_crdt::BFTCRDT;
use crate::hash_graph::{
    node_digest, node_has_ancestor, spec_struct_valid, HashGraph, Node, NodeView,
};
use crate::lexorder::{bytes_eq, bytes_lt, lemma_lex_lt_total, lemma_lex_lt_trans, lex_lt};
use crate::ordered_list::{spec_delete, spec_insert, visible, visible_values, ListKey, OrderedList};
use crate::serialize::{str_bytes, str_views, views_of, DupValue, Serialize};
use vstd::prelude::*;
use vstd::utf8::{decode_utf8, encode_utf8, encode_utf8_decode_utf8};

verus! {

/// UTF-8 encoding is injective: equal byte encodings mean equal strings.
pub proof fn lemma_str_bytes_injective(a: Seq<char>, b: Seq<char>)
    requires
        str_bytes(a) == str_bytes(b),
    ensures
        a == b,
{
    encode_utf8_decode_utf8(a);
    encode_utf8_decode_utf8(b);
    assert(decode_utf8(encode_utf8(a)) == decode_utf8(encode_utf8(b)));
}

impl ListKey for (String, String) {
    /// Lexicographic pair order: user id first, digest as the tiebreaker,
    /// both compared by their UTF-8 bytes.
    open spec fn key_lt(a: (Seq<char>, Seq<char>), b: (Seq<char>, Seq<char>)) -> bool {
        lex_lt(str_bytes(a.0), str_bytes(b.0)) || (str_bytes(a.0) == str_bytes(b.0) && lex_lt(
            str_bytes(a.1),
            str_bytes(b.1),
        ))
    }

    proof fn lemma_key_order(
        a: (Seq<char>, Seq<char>),
        b: (Seq<char>, Seq<char>),
        c: (Seq<char>, Seq<char>),
    ) {
        if Self::key_lt(a, b) && Self::key_lt(b, c) {
            if lex_lt(str_bytes(a.0), str_bytes(b.0)) && lex_lt(str_bytes(b.0), str_bytes(c.0)) {
                lemma_lex_lt_trans(str_bytes(a.0), str_bytes(b.0), str_bytes(c.0));
            } else if str_bytes(a.0) == str_bytes(b.0) && str_bytes(b.0) == str_bytes(c.0) {
                lemma_lex_lt_trans(str_bytes(a.1), str_bytes(b.1), str_bytes(c.1));
            }
            assert(Self::key_lt(a, c));
        }
        if a != b {
            if a.0 != b.0 {
                assert(str_bytes(a.0) != str_bytes(b.0)) by {
                    if str_bytes(a.0) == str_bytes(b.0) {
                        lemma_str_bytes_injective(a.0, b.0);
                    }
                }
                lemma_lex_lt_total(str_bytes(a.0), str_bytes(b.0));
            } else {
                assert(a.1 != b.1);
                assert(str_bytes(a.1) != str_bytes(b.1)) by {
                    if str_bytes(a.1) == str_bytes(b.1) {
                        lemma_str_bytes_injective(a.1, b.1);
                    }
                }
                lemma_lex_lt_total(str_bytes(a.1), str_bytes(b.1));
            }
            assert(Self::key_lt(a, b) || Self::key_lt(b, a));
        }
    }

    fn lt(&self, other: &(String, String)) -> (r: bool) {
        let first_lt = bytes_lt(self.0.as_str().as_bytes(), other.0.as_str().as_bytes());
        if first_lt {
            true
        } else {
            let first_eq = bytes_eq(self.0.as_str().as_bytes(), other.0.as_str().as_bytes());
            if first_eq {
                bytes_lt(self.1.as_str().as_bytes(), other.1.as_str().as_bytes())
            } else {
                false
            }
        }
    }

    fn key_eq(&self, other: &(String, String)) -> (r: bool) {
        self.0.eq(&other.0) && self.1.eq(&other.1)
    }
}

/// A replicated-growable-array operation: insert a value with a user id
/// after a reference element, or delete an element by id.
pub enum BFTRGAOp {
    Insert(String, String, Option<(String, String)>),
    Delete((String, String)),
}

/// The abstract value of an operation.
pub enum BFTRGAOpView {
    Insert(Seq<char>, Seq<char>, Option<(Seq<char>, Seq<char>)>),
    Delete((Seq<char>, Seq<char>)),
}

impl View for BFTRGAOp {
    type V = BFTRGAOpView;

    open spec fn view(&self) -> BFTRGAOpView {
        match self {
            BFTRGAOp::Insert(v, i, after) => BFTRGAOpView::Insert(
                v@,
                i@,
                match after {
                    None => None,
                    Some(a) => Some((a.0@, a.1@)),
                },
            ),
            BFTRGAOp::Delete(eid) => BFTRGAOpView::Delete((eid.0@, eid.1@)),
        }
    }
}

impl Serialize for BFTRGAOp {
    /// An insert encodes as value, user id and, when present, the reference
    /// id followed by the reference digest; a delete as the element's user
    /// id followed by its digest.
    open spec fn bytes_of(v: BFTRGAOpView) -> Seq<u8> {
        match v {
            BFTRGAOpView::Insert(val, i, after) => str_bytes(val) + str_bytes(i) + (match after {
                None => Seq::<u8>::empty(),
                Some(a) => str_bytes(a.0) + str_bytes(a.1),
            }),
            BFTRGAOpView::Delete(eid) => str_bytes(eid.0) + str_bytes(eid.1),
        }
    }

    fn to_bytes(&self) -> (r: Vec<u8>) {
        match self {
            BFTRGAOp::Insert(val, i, after) => {
                let mut out = val.as_str().as_bytes_vec();
                let mut ib = i.as_str().as_bytes_vec();
                out.append(&mut ib);
                match after {
                    None => {
                        proof {
                            assert(out@ =~= Self::bytes_of(self@));
                        }
                    },
                    Some(a) => {
                        let mut ab = a.0.as_str().as_bytes_vec();
                        out.append(&mut ab);
                        let mut hb = a.1.as_str().as_bytes_vec();
                        out.append(&mut hb);
                        proof {
                            assert(out@ =~= Self::bytes_of(self@));
                        }
                    },
                }
                out
            },
            BFTRGAOp::Delete(eid) => {
                let mut out = eid.0.as_str().as_bytes_vec();
                let mut hb = eid.1.as_str().as_bytes_vec();
                out.append(&mut hb);
                out
            },
        }
    }
}

impl DupValue for BFTRGAOp {
    fn dup(&self) -> (r: BFTRGAOp) {
        match self {
            BFTRGAOp::Insert(v, i, after) => BFTRGAOp::Insert(
                v.clone(),
                i.clone(),
                match after {
                    None => None,
                    Some(a) => Some((a.0.clone(), a.1.clone())),
                },
            ),
            BFTRGAOp::Delete(eid) => BFTRGAOp::Delete((eid.0.clone(), eid.1.clone())),
        }
    }
}

/// Whether a reference element id checks out against the graph: the node
/// under the reference digest is a stored insert carrying the claimed user
/// id, and an ancestor of `node`.
pub open spec fn rga_ref_ok(
    g: Map<Seq<char>, NodeView<BFTRGAOpView>>,
    node: NodeView<BFTRGAOpView>,
    refid: (Seq<char>, Seq<char>),
) -> bool {
    &&& g.contains_key(refid.1)
    &&& g[refid.1].value matches BFTRGAOpView::Insert(_, i2, _) && i2 == refid.0
    &&& node_has_ancestor::<BFTRGAOp>(g, node, refid.1)
}

/// The semantic-validity predicate: an insert with no reference is always
/// valid; an insert or delete that names a reference element is valid only
/// if the reference checks out.
pub open spec fn bft_rga_sem_valid(
    g: Map<Seq<char>, NodeView<BFTRGAOpView>>,
    node: NodeView<BFTRGAOpView>,
) -> bool {
    match node.value {
        BFTRGAOpView::Insert(_, _, after) => match after {
            None => true,
            Some(refid) => rga_ref_ok(g, node, refid),
        },
        BFTRGAOpView::Delete(eid) => rga_ref_ok(g, node, eid),
    }
}

/// The list step a validated node performs: an insert splices under the id
/// `(user id, node digest)`; a delete marks the named element.
pub open spec fn bft_rga_step(
    s: Seq<((Seq<char>, Seq<char>), Seq<char>, bool)>,
    node: NodeView<BFTRGAOpView>,
) -> Seq<((Seq<char>, Seq<char>), Seq<char>, bool)> {
    match node.value {
        BFTRGAOpView::Insert(v, i, after) => spec_insert::<(String, String), Seq<char>>(
            s,
            (i, node_digest::<BFTRGAOp>(node)),
            v,
            after,
        ),
        BFTRGAOpView::Delete(eid) => spec_delete::<(String, String), Seq<char>>(s, eid),
    }
}

/// Concurrent-insert commutativity at the replica level: two insert nodes
/// with the same reference and distinct element ids leave the list in the
/// same state whichever is interpreted first; the insert whose
/// `(user id, digest)` pair is larger ends up earlier among the reference's
/// successors.
pub proof fn lemma_rga_insert_commutes(
    s: Seq<((Seq<char>, Seq<char>), Seq<char>, bool)>,
    n1: NodeView<BFTRGAOpView>,
    n2: NodeView<BFTRGAOpView>,
)
    requires
        n1.value matches BFTRGAOpView::Insert(_, _, _),
        n2.value matches BFTRGAOpView::Insert(_, _, _),
        n1.value->Insert_2 == n2.value->Insert_2,
        (n1.value->Insert_1, node_digest::<BFTRGAOp>(n1)) != (
            n2.value->Insert_1,
            node_digest::<BFTRGAOp>(n2),
        ),
    ensures
        bft_rga_step(bft_rga_step(s, n1), n2) == bft_rga_step(bft_rga_step(s, n2), n1),
{
    crate::ordered_list::lemma_insert_commutes::<(String, String), Seq<char>>(
        s,
        (n1.value->Insert_1, node_digest::<BFTRGAOp>(n1)),
        n1.value->Insert_0,
        (n2.value->Insert_1, node_digest::<BFTRGAOp>(n2)),
        n2.value->Insert_0,
        n1.value->Insert_2,
    );
}

/// Two deletes commute unconditionally.
pub proof fn lemma_rga_delete_commutes(
    s: Seq<((Seq<char>, Seq<char>), Seq<char>, bool)>,
    n1: NodeView<BFTRGAOpView>,
    n2: NodeView<BFTRGAOpView>,
)
    requires
        n1.value matches BFTRGAOpView::Delete(_),
        n2.value matches BFTRGAOpView::Delete(_),
    ensures
        bft_rga_step(bft_rga_step(s, n1), n2) == bft_rga_step(bft_rga_step(s, n2), n1),
{
    crate::ordered_list::lemma_delete_commutes::<(String, String), Seq<char>>(
        s,
        n1.value->Delete_0,
        n2.value->Delete_0,
    );
}

/// An insert and a delete of a different element id commute.  A delete can
/// only name an element whose insert it has observed, so a concurrent
/// insert's id is always different.
pub proof fn lemma_rga_insert_delete_commutes(
    s: Seq<((Seq<char>, Seq<char>), Seq<char>, bool)>,
    ins: NodeView<BFTRGAOpView>,
    del: NodeView<BFTRGAOpView>,
)
    requires
        ins.value matches BFTRGAOpView::Insert(_, _, _),
        del.value matches BFTRGAOpView::Delete(_),
        (ins.value->Insert_1, node_digest::<BFTRGAOp>(ins)) != del.value->Delete_0,
    ensures
        bft_rga_step(bft_rga_step(s, ins), del) == bft_rga_step(bft_rga_step(s, del), ins),
{
    crate::ordered_list::lemma_insert_delete_commutes::<(String, String), Seq<char>>(
        s,
        (ins.value->Insert_1, node_digest::<BFTRGAOp>(ins)),
        ins.value->Insert_0,
        ins.value->Insert_2,
        del.value->Delete_0,
    );
}

/// Semantic validity is monotone under admission: once a node's predicate
/// holds it keeps holding as more nodes are stored, which is what lets the
/// pending buffer be re-evaluated after every admission.
pub proof fn lemma_rga_sem_valid_monotone(
    g: Map<Seq<char>, NodeView<BFTRGAOpView>>,
    g2: Map<Seq<char>, NodeView<BFTRGAOpView>>,
    node: NodeView<BFTRGAOpView>,
)
    requires
        g.submap_of(g2),
        bft_rga_sem_valid(g, node),
    ensures
        bft_rga_sem_valid(g2, node),
{
    match node.value {
        BFTRGAOpView::Insert(_, _, after) => {
            match after {
                None => {},
                Some(refid) => {
                    assert(g2.contains_key(refid.1) && g2[refid.1] == g[refid.1]);
                    crate::hash_graph::lemma_node_has_ancestor_monotone::<BFTRGAOp>(
                        g,
                        g2,
                        node,
                        refid.1,
                    );
                },
            }
        },
        BFTRGAOpView::Delete(eid) => {
            assert(g2.contains_key(eid.1) && g2[eid.1] == g[eid.1]);
            crate::hash_graph::lemma_node_has_ancestor_monotone::<BFTRGAOp>(g, g2, node, eid.1);
        },
    }
}

/// A step loses a visible entry only when a delete names its id: an insert
/// never removes or hides an existing entry.
pub proof fn lemma_rga_step_loses_only_named(
    s: Seq<((Seq<char>, Seq<char>), Seq<char>, bool)>,
    n: NodeView<BFTRGAOpView>,
    x: ((Seq<char>, Seq<char>), Seq<char>, bool),
)
    requires
        visible(s).contains(x),
        !visible(bft_rga_step(s, n)).contains(x),
    ensures
        n.value matches BFTRGAOpView::Delete(eid) && eid == x.0,
{
    crate::ordered_list::lemma_visible_membership(s, x);
    crate::ordered_list::lemma_visible_membership(bft_rga_step(s, n), x);
    let k = choose|k: int| 0 <= k < s.len() && s[k] == x;
    match n.value {
        BFTRGAOpView::Insert(v, i, after) => {
            let r = bft_rga_step(s, n);
            match after {
                None => {
                    let p = crate::ordered_list::insert_pos::<(String, String), Seq<char>>(
                        s,
                        0,
                        (i, node_digest::<BFTRGAOp>(n)),
                    );
                    crate::ordered_list::lemma_insert_pos_spec::<(String, String), Seq<char>>(
                        s,
                        0,
                        (i, node_digest::<BFTRGAOp>(n)),
                    );
                    if k < p {
                        assert(r[k] == x);
                    } else {
                        assert(r[k + 1] == x);
                    }
                    assert(r.contains(x));
                },
                Some(a) => {
                    let j = crate::ordered_list::find_index::<(String, String), Seq<char>>(
                        s,
                        0,
                        a,
                    );
                    crate::ordered_list::lemma_find_index_spec::<(String, String), Seq<char>>(
                        s,
                        0,
                        a,
                    );
                    if j == s.len() {
                        assert(r == s);
                        assert(r.contains(x));
                    } else {
                        let p = crate::ordered_list::insert_pos::<(String, String), Seq<char>>(
                            s,
                            j + 1,
                            (i, node_digest::<BFTRGAOp>(n)),
                        );
                        crate::ordered_list::lemma_insert_pos_spec::<
                            (String, String),
                            Seq<char>,
                        >(s, j + 1, (i, node_digest::<BFTRGAOp>(n)));
                        if k < p {
                            assert(r[k] == x);
                        } else {
                            assert(r[k + 1] == x);
                        }
                        assert(r.contains(x));
                    }
                },
            }
        },
        BFTRGAOpView::Delete(eid) => {
            let r = bft_rga_step(s, n);
            let j = crate::ordered_list::find_index::<(String, String), Seq<char>>(s, 0, eid);
            crate::ordered_list::lemma_find_index_spec::<(String, String), Seq<char>>(s, 0, eid);
            if j == s.len() {
                assert(r == s);
                assert(r.contains(x));
            } else {
                if k != j {
                    assert(r[k] == x);
                    assert(r.contains(x));
                } else {
                    assert(x == s[j]);
                    assert(eid == x.0);
                }
            }
        },
    }
}

/// Through a whole buffer pass, a visible entry is lost only if one of the
/// buffered nodes is a delete that names its id.
pub proof fn lemma_rga_pass_loses_only_named(
    g: Map<Seq<char>, NodeView<BFTRGAOpView>>,
    s: Seq<((Seq<char>, Seq<char>), Seq<char>, bool)>,
    pend: Seq<NodeView<BFTRGAOpView>>,
    x: ((Seq<char>, Seq<char>), Seq<char>, bool),
)
    requires
        visible(s).contains(x),
        !visible(crate::bft_crdt::eval_pass::<BFTRGAOp, BFTRGA>(g, s, pend).1).contains(x),
    ensures
        exists|j: int|
            0 <= j < pend.len() && ((#[trigger] pend[j]).value matches BFTRGAOpView::Delete(eid)
                && eid == x.0),
    decreases pend.len(),
{
    let n = pend[0];
    let rest = pend.drop_first();
    let d = node_digest::<BFTRGAOp>(n);
    if g.contains_key(d) {
        assert(crate::bft_crdt::eval_pass::<BFTRGAOp, BFTRGA>(g, s, pend).1
            == crate::bft_crdt::eval_pass::<BFTRGAOp, BFTRGA>(g, s, rest).1);
        lemma_rga_pass_loses_only_named(g, s, rest, x);
        let j = choose|j: int|
            0 <= j < rest.len() && ((#[trigger] rest[j]).value matches BFTRGAOpView::Delete(eid)
                && eid == x.0);
        assert(pend[j + 1] == rest[j]);
    } else if spec_struct_valid(g, n) && bft_rga_sem_valid(g, n) {
        let g2 = g.insert(d, n);
        let s2 = bft_rga_step(s, n);
        assert(crate::bft_crdt::eval_pass::<BFTRGAOp, BFTRGA>(g, s, pend).1
            == crate::bft_crdt::eval_pass::<BFTRGAOp, BFTRGA>(g2, s2, rest).1);
        if visible(s2).contains(x) {
            lemma_rga_pass_loses_only_named(g2, s2, rest, x);
            let j = choose|j: int|
                0 <= j < rest.len() && ((#[trigger] rest[j]).value matches BFTRGAOpView::Delete(
                    eid,
                ) && eid == x.0);
            assert(pend[j + 1] == rest[j]);
        } else {
            lemma_rga_step_loses_only_named(s, n, x);
            assert(pend[0] == n);
        }
    } else {
        assert(crate::bft_crdt::eval_pass::<BFTRGAOp, BFTRGA>(g, s, pend).1
            == crate::bft_crdt::eval_pass::<BFTRGAOp, BFTRGA>(g, s, rest).1);
        lemma_rga_pass_loses_only_named(g, s, rest, x);
        let j = choose|j: int|
            0 <= j < rest.len() && ((#[trigger] rest[j]).value matches BFTRGAOpView::Delete(eid)
                && eid == x.0);
        assert(pend[j + 1] == rest[j]);
    }
}

/// Through the whole re-evaluation fixed point, a visible entry is lost
/// only if a buffered delete names its id.
pub proof fn lemma_rga_pending_loses_only_named(
    g: Map<Seq<char>, NodeView<BFTRGAOpView>>,
    s: Seq<((Seq<char>, Seq<char>), Seq<char>, bool)>,
    pend: Seq<NodeView<BFTRGAOpView>>,
    x: ((Seq<char>, Seq<char>), Seq<char>, bool),
)
    requires
        visible(s).contains(x),
        !visible(crate::bft_crdt::eval_pending::<BFTRGAOp, BFTRGA>(g, s, pend).1).contains(x),
    ensures
        exists|j: int|
            0 <= j < pend.len() && ((#[trigger] pend[j]).value matches BFTRGAOpView::Delete(eid)
                && eid == x.0),
    decreases pend.len(),
{
    let pass = crate::bft_crdt::eval_pass::<BFTRGAOp, BFTRGA>(g, s, pend);
    if pass.2.len() < pend.len() {
        if visible(pass.1).contains(x) {
            lemma_rga_pending_loses_only_named(pass.0, pass.1, pass.2, x);
            let j = choose|j: int|
                0 <= j < pass.2.len() && ((#[trigger] pass.2[j]).value
                    matches BFTRGAOpView::Delete(eid) && eid == x.0);
            crate::bft_crdt::lemma_eval_pass_kept_subset::<BFTRGAOp, BFTRGA>(g, s, pend);
            assert(pass.2.contains(pass.2[j]));
            assert(pend.contains(pass.2[j]));
            let j2 = choose|j2: int| 0 <= j2 < pend.len() && pend[j2] == pass.2[j];
        } else {
            lemma_rga_pass_loses_only_named(g, s, pend, x);
        }
    } else {
        lemma_rga_pass_loses_only_named(g, s, pend, x);
    }
}

/// A visible entry present before a remote submission and absent after it
/// was taken away by an interpreted delete that named its id: the submitted
/// node itself, or one re-evaluated out of the pending buffer.  Inserts
/// never lose visible entries; only explicit deletes do.
pub proof fn lemma_rga_remote_loses_only_named(
    g: Map<Seq<char>, NodeView<BFTRGAOpView>>,
    s: Seq<((Seq<char>, Seq<char>), Seq<char>, bool)>,
    p0: Seq<NodeView<BFTRGAOpView>>,
    nv: NodeView<BFTRGAOpView>,
    x: ((Seq<char>, Seq<char>), Seq<char>, bool),
)
    requires
        !g.contains_key(node_digest::<BFTRGAOp>(nv)),
        spec_struct_valid(g, nv),
        bft_rga_sem_valid(g, nv),
        visible(s).contains(x),
        !visible(
            crate::bft_crdt::eval_pending::<BFTRGAOp, BFTRGA>(
                g.insert(node_digest::<BFTRGAOp>(nv), nv),
                bft_rga_step(s, nv),
                p0,
            ).1,
        ).contains(x),
    ensures
        (nv.value matches BFTRGAOpView::Delete(eid) && eid == x.0) || exists|j: int|
            0 <= j < p0.len() && ((#[trigger] p0[j]).value matches BFTRGAOpView::Delete(eid)
                && eid == x.0),
{
    let s2 = bft_rga_step(s, nv);
    if visible(s2).contains(x) {
        lemma_rga_pending_loses_only_named(g.insert(node_digest::<BFTRGAOp>(nv), nv), s2, p0, x);
    } else {
        lemma_rga_step_loses_only_named(s, nv, x);
    }
}

/// Concurrent semantically valid nodes with distinct digests commute: a
/// reference can only name an element whose insert is already stored, never
/// one belonging to a node that is not admitted yet.  This is the per-pair
/// step behind convergence of replicas that admit the same nodes in
/// different orders.
pub proof fn lemma_bft_rga_concurrent_commute(
    g: Map<Seq<char>, NodeView<BFTRGAOpView>>,
    s: Seq<((Seq<char>, Seq<char>), Seq<char>, bool)>,
    n1: NodeView<BFTRGAOpView>,
    n2: NodeView<BFTRGAOpView>,
)
    requires
        bft_rga_sem_valid(g, n1),
        bft_rga_sem_valid(g, n2),
        !g.contains_key(node_digest::<BFTRGAOp>(n1)),
        !g.contains_key(node_digest::<BFTRGAOp>(n2)),
        node_digest::<BFTRGAOp>(n1) != node_digest::<BFTRGAOp>(n2),
    ensures
        bft_rga_step(bft_rga_step(s, n1), n2) == bft_rga_step(bft_rga_step(s, n2), n1),
{
    match (n1.value, n2.value) {
        (BFTRGAOpView::Insert(_, _, _), BFTRGAOpView::Insert(_, _, _)) => {
            let k1 = (n1.value->Insert_1, node_digest::<BFTRGAOp>(n1));
            let k2 = (n2.value->Insert_1, node_digest::<BFTRGAOp>(n2));
            // a resolvable reference names a stored digest, so it can be
            // neither new element's id
            match n1.value->Insert_2 {
                None => {},
                Some(r) => {
                    assert(g.contains_key(r.1));
                    assert(r != k2);
                },
            }
            match n2.value->Insert_2 {
                None => {},
                Some(r) => {
                    assert(g.contains_key(r.1));
                    assert(r != k1);
                },
            }
            crate::ordered_list::lemma_insert_commutes_general::<(String, String), Seq<char>>(
                s,
                k1,
                n1.value->Insert_0,
                n1.value->Insert_2,
                k2,
                n2.value->Insert_0,
                n2.value->Insert_2,
            );
        },
        (BFTRGAOpView::Insert(_, _, _), BFTRGAOpView::Delete(eid)) => {
            assert(g.contains_key(eid.1));
            lemma_rga_insert_delete_commutes(s, n1, n2);
        },
        (BFTRGAOpView::Delete(eid), BFTRGAOpView::Insert(_, _, _)) => {
            assert(g.contains_key(eid.1));
            lemma_rga_insert_delete_commutes(s, n2, n1);
        },
        (BFTRGAOpView::Delete(_), BFTRGAOpView::Delete(_)) => {
            lemma_rga_delete_commutes(s, n1, n2);
        },
    }
}

/// Convergence for one pair of concurrent growable-array submissions: two
/// unstored, valid nodes with distinct digests may arrive in either order;
/// both orders admit both nodes and end in the same graph and the same
/// list.
pub proof fn lemma_bft_rga_pairwise_convergence(
    g: Map<Seq<char>, NodeView<BFTRGAOpView>>,
    s: Seq<((Seq<char>, Seq<char>), Seq<char>, bool)>,
    n1: NodeView<BFTRGAOpView>,
    n2: NodeView<BFTRGAOpView>,
)
    requires
        !g.contains_key(node_digest::<BFTRGAOp>(n1)),
        !g.contains_key(node_digest::<BFTRGAOp>(n2)),
        node_digest::<BFTRGAOp>(n1) != node_digest::<BFTRGAOp>(n2),
        spec_struct_valid(g, n1),
        bft_rga_sem_valid(g, n1),
        spec_struct_valid(g, n2),
        bft_rga_sem_valid(g, n2),
    ensures
        bft_rga_sem_valid(crate::bft_crdt::spec_admit::<BFTRGAOp>(g, n1), n2),
        bft_rga_sem_valid(crate::bft_crdt::spec_admit::<BFTRGAOp>(g, n2), n1),
        crate::bft_crdt::spec_admit::<BFTRGAOp>(
            crate::bft_crdt::spec_admit::<BFTRGAOp>(g, n1),
            n2,
        ) == crate::bft_crdt::spec_admit::<BFTRGAOp>(
            crate::bft_crdt::spec_admit::<BFTRGAOp>(g, n2),
            n1,
        ),
        bft_rga_step(bft_rga_step(s, n1), n2) == bft_rga_step(bft_rga_step(s, n2), n1),
{
    let g1 = crate::bft_crdt::spec_admit::<BFTRGAOp>(g, n1);
    let g2 = crate::bft_crdt::spec_admit::<BFTRGAOp>(g, n2);
    assert(g.submap_of(g1));
    assert(g.submap_of(g2));
    lemma_rga_sem_valid_monotone(g, g1, n2);
    lemma_rga_sem_valid_monotone(g, g2, n1);
    lemma_bft_rga_concurrent_commute(g, s, n1, n2);
    crate::bft_crdt::lemma_pairwise_convergence::<BFTRGAOp, BFTRGA>(g, s, n1, n2);
}

/// The replicated growable array: an ordered list keyed by
/// `(user id, digest)` pairs.
pub struct BFTRGA {
    pub elements: OrderedList<(String, String), String>,
}

impl View for BFTRGA {
    type V = Seq<((Seq<char>, Seq<char>), Seq<char>, bool)>;

    open spec fn view(&self) -> Seq<((Seq<char>, Seq<char>), Seq<char>, bool)> {
        self.elements@
    }
}

impl BFTRGA {
    /// An empty array.
    pub fn new() -> (r: BFTRGA)
        ensures
            r@ == Seq::<((Seq<char>, Seq<char>), Seq<char>, bool)>::empty(),
    {
        BFTRGA { elements: OrderedList::new() }
    }

    /// The value at visible index `idx`.
    pub fn get(&self, idx: usize) -> (r: Option<String>)
        ensures
            r is Some <==> idx < visible(self@).len(),
            r matches Some(v) ==> v@ == visible(self@)[idx as int].1,
    {
        self.elements.get(idx)
    }

    /// The visible values, in list order.
    pub fn get_list(&self) -> (r: Vec<String>)
        ensures
            str_views(r@) == visible_values(self@),
    {
        let r = self.elements.get_list();
        proof {
            assert(str_views(r@) =~= views_of(r@));
        }
        r
    }

    /// Build the insert that places `value` at visible index `idx` under
    /// the user id `iid`: anchored on nothing for the head, else on the
    /// element just before `idx`.  `None` when `idx` is past the end.
    pub fn insert(&mut self, idx: usize, value: String, iid: String) -> (r: Option<BFTRGAOp>)
        ensures
            *final(self) == *old(self),
            r is Some <==> (idx == 0 || idx - 1 < visible(old(self)@).len()),
            r matches Some(op) ==> op@ == (if idx == 0 {
                BFTRGAOpView::Insert(value@, iid@, None)
            } else {
                BFTRGAOpView::Insert(value@, iid@, Some(visible(old(self)@)[idx - 1].0))
            }),
    {
        if idx == 0 {
            Some(BFTRGAOp::Insert(value, iid, None))
        } else {
            match self.elements.get_by_idx(idx - 1) {
                Some(prev) => Some(BFTRGAOp::Insert(value, iid, Some(prev.0))),
                None => None,
            }
        }
    }

    /// Build the delete of the element at visible index `idx`; `None` when
    /// out of range.
    pub fn delete(&mut self, idx: usize) -> (r: Option<BFTRGAOp>)
        ensures
            *final(self) == *old(self),
            r is Some <==> idx < visible(old(self)@).len(),
            r matches Some(op) ==> op@ == BFTRGAOpView::Delete(visible(old(self)@)[idx as int].0),
    {
        match self.elements.get_by_idx(idx) {
            Some(e) => Some(BFTRGAOp::Delete(e.0)),
            None => None,
        }
    }

    /// Build the delete of the element at raw index `idx`, tombstones
    /// included; `None` when out of range.
    pub fn raw_delete(&mut self, idx: usize) -> (r: Option<BFTRGAOp>)
        ensures
            *final(self) == *old(self),
            r is Some <==> idx < old(self)@.len(),
            r matches Some(op) ==> op@ == BFTRGAOpView::Delete(old(self)@[idx as int].0),
    {
        if idx < self.elements.elements.len() {
            let e = &self.elements.elements[idx];
            proof {
                assert(self@[idx as int].0 == (e.0.0@, e.0.1@));
            }
            Some(BFTRGAOp::Delete((e.0.0.clone(), e.0.1.clone())))
        } else {
            None
        }
    }
}

impl BFTCRDT<BFTRGAOp> for BFTRGA {
    open spec fn inv(&self) -> bool {
        true
    }

    open spec fn step(
        pre: Seq<((Seq<char>, Seq<char>), Seq<char>, bool)>,
        node: NodeView<BFTRGAOpView>,
    ) -> Seq<((Seq<char>, Seq<char>), Seq<char>, bool)> {
        bft_rga_step(pre, node)
    }

    open spec fn sem_valid(
        g: Map<Seq<char>, NodeView<BFTRGAOpView>>,
        node: NodeView<BFTRGAOpView>,
    ) -> bool {
        bft_rga_sem_valid(g, node)
    }

    fn interpret_node(&mut self, node: &Node<BFTRGAOp>) {
        match &node.value {
            BFTRGAOp::Insert(value, id, after) => {
                let h = node.get_hash();
                let a: Option<(String, String)> = match after {
                    None => None,
                    Some(p) => Some((p.0.clone(), p.1.clone())),
                };
                proof {
                    assert(crate::ordered_list::opt_view(a) == node@.value->Insert_2);
                }
                self.elements.insert_by_id((id.clone(), h), value.clone(), a);
            },
            BFTRGAOp::Delete(eid) => {
                self.elements.delete_by_id((eid.0.clone(), eid.1.clone()));
            },
        }
    }

    fn is_sem_valid(&self, node: &Node<BFTRGAOp>, hash_graph: &HashGraph<BFTRGAOp>) -> (r: bool) {
        let ghost g = hash_graph@.nodes;
        let refid: &(String, String) = match &node.value {
            BFTRGAOp::Insert(_, _, after) => {
                match after {
                    None => {
                        return true;
                    },
                    Some(p) => p,
                }
            },
            BFTRGAOp::Delete(eid) => eid,
        };
        let ghost rv = (refid.0@, refid.1@);
        match hash_graph.get_node(&refid.1) {
            None => {
                proof {
                    assert(!rga_ref_ok(g, node@, rv));
                }
                false
            },
            Some(m) => {
                proof {
                    assert(m@ == g[rv.1]);
                }
                match &m.value {
                    BFTRGAOp::Insert(_, i2, _) => {
                        if !i2.eq(&refid.0) {
                            proof {
                                assert(!rga_ref_ok(g, node@, rv));
                            }
                            return false;
                        }
                        let anc = hash_graph.is_ancestor(&refid.1, node);
                        proof {
                            if anc {
                                assert(rga_ref_ok(g, node@, rv));
                            } else {
                                assert(!rga_ref_ok(g, node@, rv));
                            }
                        }
                        anc
                    },
                    BFTRGAOp::Delete(d2) => {
                        proof {
                            assert(m@.value == BFTRGAOpView::Delete((d2.0@, d2.1@)));
                            assert(!rga_ref_ok(g, node@, rv));
                        }
                        false
                    },
                }
            },
        }
    }
}

} // verus!
