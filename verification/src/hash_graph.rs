//! The content-addressed causal hash graph.
//!
//! A node is a payload together with the digests of its predecessors.  The
//! node's own digest is the hash of the predecessor digests, sorted
//! ascending, concatenated as raw bytes and followed by the canonical byte
//! encoding of the payload.  Sorting makes the digest invariant under
//! permutation of the predecessors.
//!
//! The graph maps digests to nodes and tracks the current `heads`: stored
//! digests that no stored node names as a predecessor.

use crate::lexorder::{byte_views, concat_bytes, lemma_concat_bytes_push, lex_leq_fn, sort_byte_seqs};
use crate::serialize::{contains_string, dup_string_vec, str_bytes, str_views, DupValue, Serialize};
use sha2::Digest;
use vstd::prelude::*;

verus! {

/// A digest, rendered as its 64-character lowercase hexadecimal string.
pub type HashType = String;

/// What `sha256_hex` returns on a given byte sequence.
pub uninterp spec fn sha256_hex_of(input: Seq<u8>) -> Seq<char>;

/// Relies on sha2::Sha256 and hex::encode: the SHA-256 digest is a function
/// of the input bytes alone, 32 bytes long, and hex::encode renders each
/// byte as exactly two lowercase hexadecimal digits.
#[verifier::external_body]
fn sha256_hex(input: &Vec<u8>) -> (r: String)
    ensures
        r@ == sha256_hex_of(input@),
        r@.len() == 64,
{
    hex::encode(sha2::Sha256::digest(input.as_slice()))
}

/// The abstract value of a node: the views of its predecessor digests and of
/// its payload.
pub struct NodeView<OV> {
    pub predecessors: Seq<Seq<char>>,
    pub value: OV,
}

/// An operation node: a payload and the digests of its predecessors.
pub struct Node<O> {
    pub predecessors: Vec<HashType>,
    pub value: O,
}

impl<O: View> View for Node<O> {
    type V = NodeView<O::V>;

    open spec fn view(&self) -> NodeView<O::V> {
        NodeView { predecessors: str_views(self.predecessors@), value: self.value@ }
    }
}

/// The UTF-8 bytes of each predecessor digest.
pub open spec fn pred_bytes_of(preds: Seq<Seq<char>>) -> Seq<Seq<u8>> {
    preds.map_values(|p: Seq<char>| str_bytes(p))
}

/// The byte sequence a node's digest is computed over: the predecessor
/// digests sorted ascending and concatenated, followed by the payload
/// encoding.
pub open spec fn hash_input(preds: Seq<Seq<char>>, payload: Seq<u8>) -> Seq<u8> {
    concat_bytes(pred_bytes_of(preds).sort_by(lex_leq_fn())) + payload
}

/// The digest of a node with the given abstract value.
pub open spec fn node_digest<O: Serialize>(nv: NodeView<O::V>) -> Seq<char> {
    sha256_hex_of(hash_input(nv.predecessors, O::bytes_of(nv.value)))
}

/// The predecessor digests of `v`, sorted ascending and concatenated as
/// raw bytes: the prefix of every digest computation.
pub fn sorted_string_bytes(v: &Vec<HashType>) -> (r: Vec<u8>)
    ensures
        r@ == concat_bytes(pred_bytes_of(str_views(v@)).sort_by(lex_leq_fn())),
{
    let mut pred_bytes: Vec<Vec<u8>> = Vec::new();
    let mut i: usize = 0;
    while i < v.len()
        invariant
            i <= v@.len(),
            byte_views(pred_bytes@) == pred_bytes_of(str_views(v@)).take(i as int),
        decreases v@.len() - i,
    {
        let ghost prev = pred_bytes@;
        let pb = v[i].as_str().as_bytes_vec();
        let ghost pbv = pb@;
        proof {
            assert(str_views(v@)[i as int] == v@[i as int]@);
            assert(pbv == str_bytes(str_views(v@)[i as int]));
        }
        pred_bytes.push(pb);
        i = i + 1;
        proof {
            let spec_seq = pred_bytes_of(str_views(v@));
            assert(str_views(v@).len() == v@.len());
            assert(spec_seq.len() == v@.len());
            assert(byte_views(prev).len() == prev.len());
            assert(byte_views(prev) == spec_seq.take(i - 1));
            assert(prev.len() == i - 1);
            assert(pred_bytes@.len() == i);
            assert forall|k: int| 0 <= k < i implies byte_views(pred_bytes@)[k] == spec_seq[k] by {
                if k < i - 1 {
                    assert(pred_bytes@[k] == prev[k]);
                    assert(byte_views(pred_bytes@)[k] == byte_views(prev)[k]);
                    assert(byte_views(prev)[k] == spec_seq.take(i - 1)[k]);
                } else {
                    assert(pred_bytes@[k]@ == pbv);
                    assert(spec_seq[k] == str_bytes(str_views(v@)[k]));
                }
            }
            assert(byte_views(pred_bytes@) =~= spec_seq.take(i as int));
        }
    }
    proof {
        assert(pred_bytes_of(str_views(v@)).take(v@.len() as int) =~= pred_bytes_of(str_views(v@)));
    }
    let sorted = sort_byte_seqs(pred_bytes);
    let ghost sorted_views = byte_views(sorted@);
    let mut out: Vec<u8> = Vec::new();
    let mut j: usize = 0;
    while j < sorted.len()
        invariant
            j <= sorted@.len(),
            sorted_views == byte_views(sorted@),
            out@ == concat_bytes(sorted_views.take(j as int)),
        decreases sorted@.len() - j,
    {
        let ghost before = out@;
        let piece = &sorted[j];
        let mut k: usize = 0;
        while k < piece.len()
            invariant
                k <= piece@.len(),
                out@ == before + piece@.take(k as int),
            decreases piece@.len() - k,
        {
            out.push(piece[k]);
            k = k + 1;
            proof {
                assert(out@ =~= before + piece@.take(k as int));
            }
        }
        j = j + 1;
        proof {
            assert(before + piece@.take(piece@.len() as int) =~= before + piece@);
            lemma_concat_bytes_push(sorted_views.take(j - 1 as int), sorted_views[j - 1]);
            assert(sorted_views.take(j - 1).push(sorted_views[j - 1]) =~= sorted_views.take(
                j as int,
            ));
        }
    }
    proof {
        assert(sorted_views.take(sorted@.len() as int) =~= sorted_views);
    }
    out
}

impl<O: Serialize> Node<O> {
    /// Compute this node's digest.
    pub fn get_hash(&self) -> (r: HashType)
        ensures
            r@ == node_digest::<O>(self@),
            r@.len() == 64,
    {
        let mut input = sorted_string_bytes(&self.predecessors);
        let mut vb = self.value.to_bytes();
        input.append(&mut vb);
        proof {
            assert(input@ == hash_input(self@.predecessors, O::bytes_of(self@.value)));
        }
        sha256_hex(&input)
    }
}

impl<O: DupValue> DupValue for Node<O> {
    fn dup(&self) -> (r: Node<O>) {
        Node { predecessors: dup_string_vec(&self.predecessors), value: self.value.dup() }
    }
}

/// Abstract state of a hash graph: the stored nodes keyed by digest, and the
/// current frontier.
pub struct GraphView<OV> {
    pub nodes: Map<Seq<char>, NodeView<OV>>,
    pub heads: Seq<Seq<char>>,
}

/// The map described by an association list of digest/node pairs.
pub open spec fn assoc_map<O: View>(s: Seq<(HashType, Node<O>)>) -> Map<Seq<char>, NodeView<O::V>>
    decreases s.len(),
{
    if s.len() == 0 {
        Map::empty()
    } else {
        assoc_map(s.drop_last()).insert(s.last().0@, s.last().1@)
    }
}

/// No two entries share a key.
pub open spec fn keys_unique<O>(s: Seq<(HashType, Node<O>)>) -> bool {
    forall|i: int, j: int| 0 <= i < j < s.len() ==> s[i].0@ != s[j].0@
}

/// Every predecessor named by a stored node is itself stored.
pub open spec fn graph_closed<OV>(g: Map<Seq<char>, NodeView<OV>>) -> bool {
    forall|d: Seq<char>, k: int|
        #![trigger g[d].predecessors[k]]
        g.contains_key(d) && 0 <= k < g[d].predecessors.len() ==> g.contains_key(
            g[d].predecessors[k],
        )
}

/// No stored node names `d` as a predecessor.
pub open spec fn graph_frontier<OV>(g: Map<Seq<char>, NodeView<OV>>, d: Seq<char>) -> bool {
    forall|e: Seq<char>, k: int|
        #![trigger g[e].predecessors[k]]
        g.contains_key(e) && 0 <= k < g[e].predecessors.len() ==> g[e].predecessors[k] != d
}

/// Every predecessor of the node is already stored.
pub open spec fn spec_struct_valid<OV>(g: Map<Seq<char>, NodeView<OV>>, nv: NodeView<OV>) -> bool {
    forall|k: int| 0 <= k < nv.predecessors.len() ==> g.contains_key(#[trigger] nv.predecessors[k])
}

proof fn lemma_assoc_map_contains<O: View>(s: Seq<(HashType, Node<O>)>)
    ensures
        forall|d: Seq<char>|
            #![trigger assoc_map(s).contains_key(d)]
            assoc_map(s).contains_key(d) <==> exists|i: int| 0 <= i < s.len() && s[i].0@ == d,
    decreases s.len(),
{
    if s.len() > 0 {
        lemma_assoc_map_contains(s.drop_last());
        assert forall|d: Seq<char>| #[trigger]
            assoc_map(s).contains_key(d) implies exists|i: int| 0 <= i < s.len() && s[i].0@
            == d by {
            if d == s.last().0@ {
                assert(s[s.len() - 1].0@ == d);
            } else {
                assert(assoc_map(s.drop_last()).contains_key(d));
                let i = choose|i: int| 0 <= i < s.drop_last().len() && s.drop_last()[i].0@ == d;
                assert(s.drop_last()[i] == s[i]);
                assert(s[i].0@ == d);
            }
        }
        assert forall|d: Seq<char>| (exists|i: int| 0 <= i < s.len() && s[i].0@ == d) implies
            #[trigger] assoc_map(s).contains_key(d) by {
            let i = choose|i: int| 0 <= i < s.len() && s[i].0@ == d;
            if i < s.len() - 1 {
                assert(s.drop_last()[i].0@ == d);
                assert(assoc_map(s.drop_last()).contains_key(d));
            } else {
                assert(d == s.last().0@);
            }
        }
    }
}

proof fn lemma_assoc_map_index<O: View>(s: Seq<(HashType, Node<O>)>, i: int)
    requires
        keys_unique(s),
        0 <= i < s.len(),
    ensures
        assoc_map(s).contains_key(s[i].0@),
        assoc_map(s)[s[i].0@] == s[i].1@,
    decreases s.len(),
{
    lemma_assoc_map_contains(s);
    if i == s.len() - 1 {
    } else {
        lemma_assoc_map_index(s.drop_last(), i);
        assert(s.drop_last()[i] == s[i]);
        assert(s[i].0@ != s.last().0@);
    }
}

proof fn lemma_assoc_map_finite<O: View>(s: Seq<(HashType, Node<O>)>)
    ensures
        assoc_map(s).dom().finite(),
        assoc_map(s).dom().len() <= s.len(),
    decreases s.len(),
{
    if s.len() > 0 {
        lemma_assoc_map_finite(s.drop_last());
    }
}

proof fn lemma_assoc_map_len<O: View>(s: Seq<(HashType, Node<O>)>)
    requires
        keys_unique(s),
    ensures
        assoc_map(s).dom().finite(),
        assoc_map(s).dom().len() == s.len(),
    decreases s.len(),
{
    lemma_assoc_map_finite(s);
    if s.len() > 0 {
        assert forall|i: int, j: int| 0 <= i < j < s.drop_last().len() implies s.drop_last()[i].0@
            != s.drop_last()[j].0@ by {
            assert(s.drop_last()[i] == s[i] && s.drop_last()[j] == s[j]);
        }
        lemma_assoc_map_len(s.drop_last());
        lemma_assoc_map_contains(s.drop_last());
        assert(!assoc_map(s.drop_last()).contains_key(s.last().0@)) by {
            if assoc_map(s.drop_last()).contains_key(s.last().0@) {
                let i = choose|i: int|
                    0 <= i < s.drop_last().len() && s.drop_last()[i].0@ == s.last().0@;
                assert(s[i].0@ == s[s.len() - 1].0@);
            }
        }
    }
}

proof fn lemma_assoc_map_push<O: View>(s: Seq<(HashType, Node<O>)>, h: HashType, n: Node<O>)
    ensures
        assoc_map(s.push((h, n))) == assoc_map(s).insert(h@, n@),
{
    assert(s.push((h, n)).drop_last() =~= s);
    assert(s.push((h, n)).last() == (h, n));
}

/// `a` is reachable from digest `d` along predecessor edges in at most `k`
/// steps.
pub open spec fn reaches<OV>(
    g: Map<Seq<char>, NodeView<OV>>,
    d: Seq<char>,
    a: Seq<char>,
    k: nat,
) -> bool
    decreases k,
{
    d == a || (k > 0 && g.contains_key(d) && exists|i: int|
        0 <= i < g[d].predecessors.len() && reaches(
            g,
            #[trigger] g[d].predecessors[i],
            a,
            (k - 1) as nat,
        ))
}

/// `a` is reachable from digest `d` along predecessor edges in the stored
/// subgraph.
pub open spec fn reachable<OV>(g: Map<Seq<char>, NodeView<OV>>, d: Seq<char>, a: Seq<char>) -> bool {
    exists|k: nat| reaches(g, d, a, k)
}

/// `a` is the digest of the node itself, or reachable from one of its
/// predecessors.
pub open spec fn node_has_ancestor<O: Serialize>(
    g: Map<Seq<char>, NodeView<O::V>>,
    nv: NodeView<O::V>,
    a: Seq<char>,
) -> bool {
    node_digest::<O>(nv) == a || exists|i: int|
        0 <= i < nv.predecessors.len() && reachable(g, #[trigger] nv.predecessors[i], a)
}

/// A reachable digest's own predecessors are reachable too.
pub proof fn lemma_reaches_extend<OV>(
    g: Map<Seq<char>, NodeView<OV>>,
    d: Seq<char>,
    a: Seq<char>,
    k: nat,
    i: int,
)
    requires
        reaches(g, d, a, k),
        g.contains_key(a),
        0 <= i < g[a].predecessors.len(),
    ensures
        reaches(g, d, g[a].predecessors[i], k + 1),
    decreases k,
{
    if d == a {
        assert(reaches(g, g[a].predecessors[i], g[a].predecessors[i], k));
        assert(exists|j: int|
            0 <= j < g[d].predecessors.len() && reaches(
                g,
                g[d].predecessors[j],
                g[a].predecessors[i],
                k,
            ));
    } else {
        let j = choose|j: int|
            0 <= j < g[d].predecessors.len() && reaches(g, g[d].predecessors[j], a, (k - 1) as nat);
        lemma_reaches_extend(g, g[d].predecessors[j], a, (k - 1) as nat, i);
        assert(reaches(g, g[d].predecessors[j], g[a].predecessors[i], k));
        assert(exists|j2: int|
            0 <= j2 < g[d].predecessors.len() && reaches(
                g,
                g[d].predecessors[j2],
                g[a].predecessors[i],
                k,
            ));
    }
}

/// In a predecessor-closed graph, everything reachable from a stored digest
/// is stored: a node is admitted only after all its ancestors.
pub proof fn lemma_reachable_closed<OV>(
    g: Map<Seq<char>, NodeView<OV>>,
    d: Seq<char>,
    a: Seq<char>,
    k: nat,
)
    requires
        graph_closed(g),
        g.contains_key(d),
        reaches(g, d, a, k),
    ensures
        g.contains_key(a),
    decreases k,
{
    if d != a {
        let i = choose|i: int|
            0 <= i < g[d].predecessors.len() && reaches(g, g[d].predecessors[i], a, (k - 1) as nat);
        lemma_reachable_closed(g, g[d].predecessors[i], a, (k - 1) as nat);
    }
}

/// Reachability is monotone under admission: new nodes only add paths.
pub proof fn lemma_reaches_monotone<OV>(
    g: Map<Seq<char>, NodeView<OV>>,
    g2: Map<Seq<char>, NodeView<OV>>,
    d: Seq<char>,
    a: Seq<char>,
    k: nat,
)
    requires
        g.submap_of(g2),
        reaches(g, d, a, k),
    ensures
        reaches(g2, d, a, k),
    decreases k,
{
    if d != a {
        let i = choose|i: int|
            0 <= i < g[d].predecessors.len() && reaches(g, g[d].predecessors[i], a, (k - 1) as nat);
        assert(g2.contains_key(d) && g2[d] == g[d]);
        lemma_reaches_monotone(g, g2, g[d].predecessors[i], a, (k - 1) as nat);
        assert(exists|j: int|
            0 <= j < g2[d].predecessors.len() && reaches(g2, g2[d].predecessors[j], a, (k - 1) as nat));
    }
}

/// Having an ancestor is monotone under admission.
pub proof fn lemma_node_has_ancestor_monotone<O: Serialize>(
    g: Map<Seq<char>, NodeView<O::V>>,
    g2: Map<Seq<char>, NodeView<O::V>>,
    nv: NodeView<O::V>,
    a: Seq<char>,
)
    requires
        g.submap_of(g2),
        node_has_ancestor::<O>(g, nv, a),
    ensures
        node_has_ancestor::<O>(g2, nv, a),
{
    if node_digest::<O>(nv) != a {
        let i = choose|i: int|
            0 <= i < nv.predecessors.len() && reachable(g, nv.predecessors[i], a);
        let k = choose|k: nat| reaches(g, nv.predecessors[i], a, k);
        lemma_reaches_monotone(g, g2, nv.predecessors[i], a, k);
        assert(reachable(g2, nv.predecessors[i], a));
    }
}

/// A digest reached from inside a visited set that is closed under
/// predecessor edges stays inside that set.
proof fn lemma_reaches_in_closed<OV>(
    g: Map<Seq<char>, NodeView<OV>>,
    vs: Seq<Seq<char>>,
    d: Seq<char>,
    a: Seq<char>,
    k: nat,
)
    requires
        forall|j: int, kk: int|
            #![trigger g[vs[j]].predecessors[kk]]
            0 <= j < vs.len() && g.contains_key(vs[j]) && 0 <= kk < g[vs[j]].predecessors.len()
                ==> vs.contains(g[vs[j]].predecessors[kk]),
        vs.contains(d),
        reaches(g, d, a, k),
    ensures
        vs.contains(a),
    decreases k,
{
    if d != a {
        let i = choose|i: int|
            0 <= i < g[d].predecessors.len() && reaches(g, g[d].predecessors[i], a, (k - 1) as nat);
        let j = choose|j: int| 0 <= j < vs.len() && vs[j] == d;
        assert(vs.contains(g[vs[j]].predecessors[i]));
        lemma_reaches_in_closed(g, vs, g[d].predecessors[i], a, (k - 1) as nat);
    }
}

proof fn lemma_pred_bytes_multiset(s1: Seq<Seq<char>>, s2: Seq<Seq<char>>)
    requires
        s1.to_multiset() == s2.to_multiset(),
    ensures
        pred_bytes_of(s1).to_multiset() == pred_bytes_of(s2).to_multiset(),
    decreases s1.len(),
{
    broadcast use vstd::seq_lib::group_to_multiset_ensures;
    broadcast use vstd::multiset::group_multiset_axioms;

    if s1.len() == 0 {
        assert(s2.to_multiset().len() == 0);
        assert(pred_bytes_of(s1) =~= pred_bytes_of(s2));
    } else {
        let x = s1.last();
        let fx = str_bytes(x);
        assert(s1.contains(x)) by {
            assert(s1[s1.len() - 1] == x);
        }
        assert(s2.to_multiset().count(x) > 0);
        assert(s2.contains(x));
        let i = choose|i: int| 0 <= i < s2.len() && s2[i] == x;
        assert(s1 =~= s1.drop_last().push(x));
        assert(s1.drop_last().push(x).to_multiset() == s1.drop_last().to_multiset().insert(x));
        assert(s2.remove(i).to_multiset() == s2.to_multiset().remove(x));
        assert(s1.drop_last().to_multiset() =~= s2.remove(i).to_multiset());
        lemma_pred_bytes_multiset(s1.drop_last(), s2.remove(i));
        assert(pred_bytes_of(s1) =~= pred_bytes_of(s1.drop_last()).push(fx));
        assert(pred_bytes_of(s2.remove(i)) =~= pred_bytes_of(s2).remove(i));
        assert(pred_bytes_of(s1.drop_last()).push(fx).to_multiset() == pred_bytes_of(
            s1.drop_last(),
        ).to_multiset().insert(fx));
        assert(pred_bytes_of(s2).remove(i).to_multiset() == pred_bytes_of(
            s2,
        ).to_multiset().remove(pred_bytes_of(s2)[i]));
        assert(pred_bytes_of(s2)[i] == fx);
        assert(pred_bytes_of(s2).contains(fx)) by {
            assert(pred_bytes_of(s2)[i] == fx);
        }
        assert(pred_bytes_of(s2).to_multiset().count(fx) > 0);
        assert(pred_bytes_of(s1).to_multiset() =~= pred_bytes_of(s2).to_multiset());
    }
}

/// Digest stability: a node's digest is a function of the multiset of its
/// predecessor digests and the canonical bytes of its payload alone, so
/// permuting the predecessors before admission does not change the digest.
pub proof fn lemma_digest_stability<O: Serialize>(a: NodeView<O::V>, b: NodeView<O::V>)
    requires
        a.predecessors.to_multiset() == b.predecessors.to_multiset(),
        a.value == b.value,
    ensures
        node_digest::<O>(a) == node_digest::<O>(b),
{
    let leq = lex_leq_fn();
    lemma_pred_bytes_multiset(a.predecessors, b.predecessors);
    crate::lexorder::lemma_lex_leq_total_ordering();
    pred_bytes_of(a.predecessors).lemma_sort_by_ensures(leq);
    pred_bytes_of(b.predecessors).lemma_sort_by_ensures(leq);
    vstd::seq_lib::lemma_sorted_unique(
        pred_bytes_of(a.predecessors).sort_by(leq),
        pred_bytes_of(b.predecessors).sort_by(leq),
        leq,
    );
}

/// The digest is on the visited list or still queued.
spec fn in_work(visited: Seq<Seq<char>>, queue: Seq<Seq<char>>, x: Seq<char>) -> bool {
    visited.contains(x) || queue.contains(x)
}

/// Every queued digest is reachable from one of the start node's
/// predecessors.
spec fn pred_reaches<OV>(g: Map<Seq<char>, NodeView<OV>>, start: NodeView<OV>, x: Seq<char>) -> bool {
    exists|i: int| 0 <= i < start.predecessors.len() && reachable(g, start.predecessors[i], x)
}

spec fn queue_sound<OV>(
    g: Map<Seq<char>, NodeView<OV>>,
    start: NodeView<OV>,
    q: Seq<Seq<char>>,
) -> bool {
    forall|j: int| 0 <= j < q.len() ==> pred_reaches(g, start, #[trigger] q[j])
}

/// The start node's predecessors are all visited or queued.
spec fn start_covered<OV>(
    start: NodeView<OV>,
    visited: Seq<Seq<char>>,
    queue: Seq<Seq<char>>,
) -> bool {
    forall|i: int|
        0 <= i < start.predecessors.len() ==> in_work(
            visited,
            queue,
            #[trigger] start.predecessors[i],
        )
}

/// Every predecessor of a visited digest is itself visited or queued.
spec fn work_closed<OV>(
    g: Map<Seq<char>, NodeView<OV>>,
    visited: Seq<Seq<char>>,
    queue: Seq<Seq<char>>,
) -> bool {
    forall|j: int, k: int|
        #![trigger g[visited[j]].predecessors[k]]
        0 <= j < visited.len() && g.contains_key(visited[j]) && 0 <= k < g[visited[j]].predecessors.len()
            ==> in_work(visited, queue, g[visited[j]].predecessors[k])
}

proof fn lemma_in_work_drop_last(vis: Seq<Seq<char>>, q: Seq<Seq<char>>, x: Seq<char>)
    requires
        q.len() > 0,
        vis.contains(q.last()),
        in_work(vis, q, x),
    ensures
        in_work(vis, q.drop_last(), x),
{
    if !vis.contains(x) {
        let j = choose|j: int| 0 <= j < q.len() && q[j] == x;
        if j < q.len() - 1 {
            assert(q.drop_last()[j] == x);
            assert(q.drop_last().contains(x));
        } else {
            assert(x == q.last());
        }
    }
}

/// Dropping the last queued digest keeps the search predicates when that
/// digest is already visited.
proof fn lemma_work_skip<OV>(
    g: Map<Seq<char>, NodeView<OV>>,
    start: NodeView<OV>,
    vis: Seq<Seq<char>>,
    q: Seq<Seq<char>>,
)
    requires
        q.len() > 0,
        vis.contains(q.last()),
        start_covered(start, vis, q),
        work_closed(g, vis, q),
    ensures
        start_covered(start, vis, q.drop_last()),
        work_closed(g, vis, q.drop_last()),
{
    assert forall|i: int| 0 <= i < start.predecessors.len() implies in_work(
        vis,
        q.drop_last(),
        #[trigger] start.predecessors[i],
    ) by {
        lemma_in_work_drop_last(vis, q, start.predecessors[i]);
    }
    assert forall|j: int, k: int|
        #![trigger g[vis[j]].predecessors[k]]
        0 <= j < vis.len() && g.contains_key(vis[j]) && 0 <= k
            < g[vis[j]].predecessors.len() implies in_work(
        vis,
        q.drop_last(),
        g[vis[j]].predecessors[k],
    ) by {
        assert(in_work(vis, q, g[vis[j]].predecessors[k]));
        lemma_in_work_drop_last(vis, q, g[vis[j]].predecessors[k]);
    }
}

proof fn lemma_in_work_expand<OV>(
    g: Map<Seq<char>, NodeView<OV>>,
    vis: Seq<Seq<char>>,
    q: Seq<Seq<char>>,
    x: Seq<char>,
)
    requires
        q.len() > 0,
        in_work(vis, q, x),
    ensures
        in_work(vis.push(q.last()), q.drop_last() + g[q.last()].predecessors, x),
{
    let vis1 = vis.push(q.last());
    let q1 = q.drop_last() + g[q.last()].predecessors;
    if vis.contains(x) {
        let j = choose|j: int| 0 <= j < vis.len() && vis[j] == x;
        assert(vis1[j] == x);
        assert(vis1.contains(x));
    } else {
        let j = choose|j: int| 0 <= j < q.len() && q[j] == x;
        if j < q.len() - 1 {
            assert(q1[j] == x);
            assert(q1.contains(x));
        } else {
            assert(x == q.last());
            assert(vis1[vis.len() as int] == x);
            assert(vis1.contains(x));
        }
    }
}

/// Moving the last queued digest to the visited list and queueing its
/// predecessors keeps the search predicates.
proof fn lemma_work_expand<OV>(
    g: Map<Seq<char>, NodeView<OV>>,
    start: NodeView<OV>,
    vis: Seq<Seq<char>>,
    q: Seq<Seq<char>>,
)
    requires
        q.len() > 0,
        g.contains_key(q.last()),
        start_covered(start, vis, q),
        work_closed(g, vis, q),
    ensures
        start_covered(start, vis.push(q.last()), q.drop_last() + g[q.last()].predecessors),
        work_closed(g, vis.push(q.last()), q.drop_last() + g[q.last()].predecessors),
{
    let d = q.last();
    let vis1 = vis.push(d);
    let q1 = q.drop_last() + g[d].predecessors;
    assert forall|i: int| 0 <= i < start.predecessors.len() implies in_work(
        vis1,
        q1,
        #[trigger] start.predecessors[i],
    ) by {
        lemma_in_work_expand(g, vis, q, start.predecessors[i]);
    }
    assert forall|j: int, k: int|
        #![trigger g[vis1[j]].predecessors[k]]
        0 <= j < vis1.len() && g.contains_key(vis1[j]) && 0 <= k
            < g[vis1[j]].predecessors.len() implies in_work(
        vis1,
        q1,
        g[vis1[j]].predecessors[k],
    ) by {
        if j < vis.len() {
            assert(vis1[j] == vis[j]);
            assert(in_work(vis, q, g[vis[j]].predecessors[k]));
            lemma_in_work_expand(g, vis, q, g[vis[j]].predecessors[k]);
        } else {
            assert(vis1[j] == d);
            let x = g[d].predecessors[k];
            assert(q1[q.len() - 1 + k] == x);
            assert(q1.contains(x));
        }
    }
}

/// A sequence of distinct elements drawn from a finite set is no longer
/// than the set.
proof fn lemma_no_dup_subset_len(s: Seq<Seq<char>>, dom: Set<Seq<char>>)
    requires
        s.no_duplicates(),
        dom.finite(),
        forall|j: int| 0 <= j < s.len() ==> dom.contains(#[trigger] s[j]),
    ensures
        s.len() <= dom.len(),
{
    s.unique_seq_to_set();
    assert(s.to_set().subset_of(dom)) by {
        assert forall|x: Seq<char>| s.to_set().contains(x) implies dom.contains(x) by {
            assert(s.contains(x));
            let j = choose|j: int| 0 <= j < s.len() && s[j] == x;
        }
    }
    vstd::set_lib::lemma_len_subset(s.to_set(), dom);
}

/// The heads that survive admitting a node with the given predecessors.
pub open spec fn kept_heads(heads: Seq<Seq<char>>, preds: Seq<Seq<char>>) -> Seq<Seq<char>> {
    heads.filter(|h: Seq<char>| !preds.contains(h))
}

pub(crate) proof fn lemma_filter_membership<A>(s: Seq<A>, p: spec_fn(A) -> bool)
    ensures
        forall|x: A|
            #![trigger s.filter(p).contains(x)]
            s.filter(p).contains(x) <==> s.contains(x) && p(x),
    decreases s.len(),
{
    broadcast use vstd::seq_lib::group_seq_properties;

    reveal(Seq::filter);
    if s.len() > 0 {
        lemma_filter_membership(s.drop_last(), p);
        assert forall|x: A| #[trigger] s.filter(p).contains(x) implies s.contains(x) && p(x) by {
            if p(s.last()) && x == s.last() {
                assert(s.contains(x)) by {
                    assert(s[s.len() - 1] == x);
                }
            } else {
                if s.drop_last().filter(p).contains(x) {
                    assert(s.drop_last().contains(x));
                    let j = choose|j: int|
                        0 <= j < s.drop_last().len() && s.drop_last()[j] == x;
                    assert(s[j] == x);
                } else {
                    assert(s.filter(p) == if p(s.last()) {
                        s.drop_last().filter(p).push(s.last())
                    } else {
                        s.drop_last().filter(p)
                    });
                    if p(s.last()) {
                        let j = choose|j: int|
                            0 <= j < s.filter(p).len() && s.filter(p)[j] == x;
                        if j < s.filter(p).len() - 1 {
                            assert(s.drop_last().filter(p)[j] == x);
                            assert(s.drop_last().filter(p).contains(x));
                        }
                        assert(x == s.last());
                    }
                }
            }
        }
        assert forall|x: A| s.contains(x) && p(x) implies #[trigger] s.filter(p).contains(x) by {
            let j = choose|j: int| 0 <= j < s.len() && s[j] == x;
            if j < s.len() - 1 {
                assert(s.drop_last()[j] == x);
                assert(s.drop_last().contains(x));
                assert(s.drop_last().filter(p).contains(x));
                let k = choose|k: int|
                    0 <= k < s.drop_last().filter(p).len() && s.drop_last().filter(p)[k] == x;
                if p(s.last()) {
                    assert(s.filter(p)[k] == x);
                } else {
                    assert(s.filter(p)[k] == x);
                }
            } else {
                assert(x == s.last());
                assert(s.filter(p).last() == x);
            }
        }
    }
}

pub(crate) proof fn lemma_filter_no_dup<A>(s: Seq<A>, p: spec_fn(A) -> bool)
    requires
        s.no_duplicates(),
    ensures
        s.filter(p).no_duplicates(),
    decreases s.len(),
{
    reveal(Seq::filter);
    if s.len() > 0 {
        assert(s.drop_last().no_duplicates());
        lemma_filter_no_dup(s.drop_last(), p);
        lemma_filter_membership(s.drop_last(), p);
        if p(s.last()) {
            assert(!s.drop_last().contains(s.last())) by {
                if s.drop_last().contains(s.last()) {
                    let j = choose|j: int|
                        0 <= j < s.drop_last().len() && s.drop_last()[j] == s.last();
                    assert(s[j] == s[s.len() - 1]);
                }
            }
            assert(!s.drop_last().filter(p).contains(s.last()));
            let f = s.drop_last().filter(p);
            assert(s.filter(p) == f.push(s.last()));
            assert forall|i: int, j: int|
                0 <= i < j < f.push(s.last()).len() implies f.push(s.last())[i] != f.push(
                s.last(),
            )[j] by {
                if j < f.len() {
                } else {
                    assert(f.push(s.last())[j] == s.last());
                    if f.push(s.last())[i] == s.last() {
                        assert(f[i] == s.last());
                        assert(f.contains(s.last()));
                    }
                }
            }
        }
    }
}

/// The hash graph: a mapping from digests to nodes, with the current
/// frontier of digests not named as a predecessor by any stored node.
pub struct HashGraph<O> {
    pub nodes: Vec<(HashType, Node<O>)>,
    pub heads: Vec<HashType>,
}

impl<O: View> View for HashGraph<O> {
    type V = GraphView<O::V>;

    open spec fn view(&self) -> GraphView<O::V> {
        GraphView { nodes: assoc_map(self.nodes@), heads: str_views(self.heads@) }
    }
}

impl<O: Serialize> HashGraph<O> {
    /// Every stored node sits under its own digest.
    pub open spec fn keys_match(&self) -> bool {
        forall|i: int|
            0 <= i < self.nodes@.len() ==> (#[trigger] self.nodes@[i]).0@ == node_digest::<O>(
                self.nodes@[i].1@,
            )
    }

    /// The graph invariant: unique keys, digest-consistent keys, no dangling
    /// predecessors, and `heads` listing exactly the frontier, without
    /// duplicates.
    pub open spec fn wf(&self) -> bool {
        &&& keys_unique(self.nodes@)
        &&& self.keys_match()
        &&& graph_closed(self@.nodes)
        &&& str_views(self.heads@).no_duplicates()
        &&& forall|d: Seq<char>|
            #![trigger str_views(self.heads@).contains(d)]
            str_views(self.heads@).contains(d) <==> (self@.nodes.contains_key(d) && graph_frontier(
                self@.nodes,
                d,
            ))
    }

    /// An empty graph.
    pub fn new() -> (r: HashGraph<O>)
        ensures
            r.wf(),
            r@.nodes == Map::<Seq<char>, NodeView<O::V>>::empty(),
            r@.heads == Seq::<Seq<char>>::empty(),
    {
        let r = HashGraph::<O> { nodes: Vec::new(), heads: Vec::new() };
        proof {
            assert(r@.nodes =~= Map::<Seq<char>, NodeView<O::V>>::empty());
            assert(r@.heads =~= Seq::<Seq<char>>::empty());
            assert forall|d: Seq<char>| #[trigger]
                str_views(r.heads@).contains(d) implies false by {}
        }
        r
    }

    /// Whether a node with this digest is stored.
    pub fn contains(&self, d: &HashType) -> (r: bool)
        ensures
            r == self@.nodes.contains_key(d@),
    {
        proof {
            lemma_assoc_map_contains(self.nodes@);
        }
        let mut i: usize = 0;
        while i < self.nodes.len()
            invariant
                i <= self.nodes@.len(),
                forall|j: int| 0 <= j < i ==> (#[trigger] self.nodes@[j]).0@ != d@,
            decreases self.nodes@.len() - i,
        {
            if self.nodes[i].0.eq(d) {
                proof {
                    lemma_assoc_map_contains(self.nodes@);
                    assert(self.nodes@[i as int].0@ == d@);
                    assert(self@.nodes.contains_key(d@));
                }
                return true;
            }
            i = i + 1;
        }
        false
    }

    /// Look a node up by its digest.
    pub fn get_node(&self, hash: &HashType) -> (r: Option<&Node<O>>)
        requires
            self.wf(),
        ensures
            r is Some <==> self@.nodes.contains_key(hash@),
            r matches Some(n) ==> n@ == self@.nodes[hash@],
    {
        proof {
            lemma_assoc_map_contains(self.nodes@);
        }
        let mut i: usize = 0;
        while i < self.nodes.len()
            invariant
                self.wf(),
                i <= self.nodes@.len(),
                forall|j: int| 0 <= j < i ==> (#[trigger] self.nodes@[j]).0@ != hash@,
            decreases self.nodes@.len() - i,
        {
            if self.nodes[i].0.eq(hash) {
                proof {
                    lemma_assoc_map_index(self.nodes@, i as int);
                }
                return Some(&self.nodes[i].1);
            }
            i = i + 1;
        }
        None
    }

    /// Whether every predecessor of `node` is already stored.
    pub fn is_structurally_valid(&self, node: &Node<O>) -> (r: bool)
        ensures
            r == spec_struct_valid(self@.nodes, node@),
    {
        let mut i: usize = 0;
        while i < node.predecessors.len()
            invariant
                i <= node.predecessors@.len(),
                forall|k: int|
                    0 <= k < i ==> self@.nodes.contains_key(#[trigger] node@.predecessors[k]),
            decreases node.predecessors@.len() - i,
        {
            proof {
                assert(node@.predecessors[i as int] == node.predecessors@[i as int]@);
            }
            if !self.contains(&node.predecessors[i]) {
                return false;
            }
            i = i + 1;
        }
        true
    }

    /// Store `node` under its digest, remove its predecessors from the
    /// frontier and add the new digest to it.  Re-submitting an
    /// already-stored digest changes nothing.
    pub fn add_node(&mut self, node: Node<O>)
        requires
            old(self).wf(),
            spec_struct_valid(old(self)@.nodes, node@),
        ensures
            final(self).wf(),
            old(self)@.nodes.contains_key(node_digest::<O>(node@)) ==> *final(self) == *old(self),
            !old(self)@.nodes.contains_key(node_digest::<O>(node@)) ==> final(self)@.nodes == old(
                self,
            )@.nodes.insert(node_digest::<O>(node@), node@),
            !old(self)@.nodes.contains_key(node_digest::<O>(node@)) ==> final(self)@.heads
                == kept_heads(old(self)@.heads, node@.predecessors).push(node_digest::<O>(node@)),
    {
        let hash = node.get_hash();
        if self.contains(&hash) {
            return ;
        }
        let ghost old_self = *self;
        let ghost g0 = self@.nodes;
        let ghost nv = node@;
        let ghost dg = node_digest::<O>(node@);
        let ghost pred = |h: Seq<char>| !nv.predecessors.contains(h);
        let mut new_heads: Vec<HashType> = Vec::new();
        let mut i: usize = 0;
        while i < self.heads.len()
            invariant
                i <= self.heads@.len(),
                nv == node@,
                pred == (|h: Seq<char>| !nv.predecessors.contains(h)),
                str_views(new_heads@) == str_views(self.heads@).take(i as int).filter(pred),
            decreases self.heads@.len() - i,
        {
            let ghost hv = str_views(self.heads@);
            let ghost prev = str_views(new_heads@);
            let keep = !contains_string(&node.predecessors, &self.heads[i]);
            proof {
                reveal(Seq::filter);
                assert(hv[i as int] == self.heads@[i as int]@);
                assert(hv.take(i + 1).drop_last() =~= hv.take(i as int));
                assert(hv.take(i + 1).last() == hv[i as int]);
            }
            if keep {
                new_heads.push(self.heads[i].clone());
                proof {
                    assert(str_views(new_heads@) =~= prev.push(hv[i as int]));
                }
            }
            i = i + 1;
            proof {
                reveal(Seq::filter);
                assert(str_views(new_heads@) == hv.take(i as int).filter(pred));
            }
        }
        proof {
            assert(str_views(self.heads@).take(self.heads@.len() as int) =~= str_views(
                self.heads@,
            ));
        }
        new_heads.push(hash.clone());
        self.heads = new_heads;
        let ghost old_entries = self.nodes@;
        self.nodes.push((hash, node));
        proof {
            lemma_assoc_map_push(old_entries, hash, node);
            lemma_assoc_map_contains(old_entries);
            let g1 = self@.nodes;
            assert(g1 == g0.insert(dg, nv));
            // The new digest is fresh, so the entries stay unique and the
            // keys still match the digests.
            assert forall|i2: int, j2: int| 0 <= i2 < j2 < self.nodes@.len() implies self.nodes@[i2].0@
                != self.nodes@[j2].0@ by {
                if j2 == self.nodes@.len() - 1 {
                    assert(self.nodes@[i2] == old_entries[i2]);
                    if old_entries[i2].0@ == dg {
                        assert(g0.contains_key(dg));
                    }
                }
            }
            assert forall|i2: int| 0 <= i2 < self.nodes@.len() implies (
            #[trigger] self.nodes@[i2]).0@ == node_digest::<O>(self.nodes@[i2].1@) by {
                if i2 < self.nodes@.len() - 1 {
                    assert(self.nodes@[i2] == old_entries[i2]);
                }
            }
            // Closure: predecessors of old nodes and of the new node are all
            // stored.
            assert forall|d: Seq<char>, k: int|
                g1.contains_key(d) && 0 <= k < g1[d].predecessors.len() implies g1.contains_key(
                #[trigger] g1[d].predecessors[k],
            ) by {
                if d == dg {
                    assert(g0.contains_key(nv.predecessors[k]));
                } else {
                    assert(g1[d] == g0[d]);
                    assert(g0.contains_key(g0[d].predecessors[k]));
                }
            }
            // The new heads list the frontier of the extended graph, without
            // duplicates.
            let hv0 = old_self@.heads;
            let kept = kept_heads(hv0, nv.predecessors);
            lemma_filter_membership(hv0, pred);
            lemma_filter_no_dup(hv0, pred);
            assert(str_views(self.heads@) =~= kept.push(dg));
            assert(!kept.contains(dg)) by {
                if kept.contains(dg) {
                    assert(hv0.contains(dg));
                    assert(g0.contains_key(dg));
                }
            }
            assert forall|i2: int, j2: int|
                0 <= i2 < j2 < kept.push(dg).len() implies kept.push(dg)[i2] != kept.push(
                dg,
            )[j2] by {
                if j2 == kept.len() {
                    if kept.push(dg)[i2] == dg {
                        assert(kept[i2] == dg);
                        assert(kept.contains(dg));
                    }
                }
            }
            assert(str_views(self.heads@).no_duplicates());
            assert forall|d: Seq<char>| #[trigger]
                str_views(self.heads@).contains(d) implies (g1.contains_key(d) && graph_frontier(
                g1,
                d,
            )) by {
                let hs = kept.push(dg);
                let j = choose|j: int| 0 <= j < hs.len() && hs[j] == d;
                if j == kept.len() {
                    assert(d == dg);
                    assert forall|e: Seq<char>, k: int|
                        g1.contains_key(e) && 0 <= k < g1[e].predecessors.len() implies #[trigger] g1[e].predecessors[k]
                        != d by {
                        if e == dg {
                            assert(g0.contains_key(nv.predecessors[k]));
                        } else {
                            assert(g1[e] == g0[e]);
                            assert(g0.contains_key(g0[e].predecessors[k]));
                        }
                    }
                } else {
                    assert(kept[j] == d);
                    assert(kept.contains(d));
                    assert(hv0.contains(d) && pred(d));
                    assert(g0.contains_key(d) && graph_frontier(g0, d));
                    assert forall|e: Seq<char>, k: int|
                        g1.contains_key(e) && 0 <= k < g1[e].predecessors.len() implies #[trigger] g1[e].predecessors[k]
                        != d by {
                        if e == dg {
                            assert(!nv.predecessors.contains(d));
                            if nv.predecessors[k] == d {
                                assert(nv.predecessors.contains(d));
                            }
                        } else {
                            assert(g1[e] == g0[e]);
                            assert(g0[e].predecessors[k] != d);
                        }
                    }
                }
            }
            assert forall|d: Seq<char>|
                g1.contains_key(d) && graph_frontier(g1, d) implies #[trigger] str_views(
                self.heads@,
            ).contains(d) by {
                let hs = kept.push(dg);
                if d == dg {
                    assert(hs[kept.len() as int] == d);
                } else {
                    assert(g0.contains_key(d));
                    assert(graph_frontier(g0, d)) by {
                        assert forall|e: Seq<char>, k: int|
                            g0.contains_key(e) && 0 <= k < g0[e].predecessors.len() implies
                            #[trigger] g0[e].predecessors[k] != d by {
                            assert(g1.contains_key(e) && g1[e] == g0[e]);
                            assert(g1[e].predecessors[k] != d);
                        }
                    }
                    assert(hv0.contains(d));
                    assert(pred(d)) by {
                        if nv.predecessors.contains(d) {
                            let k = choose|k: int|
                                0 <= k < nv.predecessors.len() && nv.predecessors[k] == d;
                            assert(g1.contains_key(dg));
                            assert(g1[dg] == nv);
                            assert(g1[dg].predecessors[k] == d);
                        }
                    }
                    assert(kept.contains(d));
                    let k2 = choose|k2: int| 0 <= k2 < kept.len() && kept[k2] == d;
                    assert(hs[k2] == d);
                }
            }
        }
    }

    /// Store a new node whose predecessors are the current heads, and
    /// return its digest.
    pub fn add_value_with_head_preds(&mut self, value: O) -> (r: Option<HashType>)
        requires
            old(self).wf(),
        ensures
            final(self).wf(),
            r is Some,
            r matches Some(h) ==> h@ == node_digest::<O>(
                (NodeView { predecessors: old(self)@.heads, value: value@ }),
            ),
            ({
                let nv = (NodeView { predecessors: old(self)@.heads, value: value@ });
                let d = node_digest::<O>(nv);
                &&& (old(self)@.nodes.contains_key(d) ==> *final(self) == *old(self))
                &&& (!old(self)@.nodes.contains_key(d) ==> final(self)@.nodes == old(
                    self,
                )@.nodes.insert(d, nv))
                &&& (!old(self)@.nodes.contains_key(d) ==> final(self)@.heads == kept_heads(
                    old(self)@.heads,
                    old(self)@.heads,
                ).push(d))
            }),
    {
        let node = Node::<O> { predecessors: dup_string_vec(&self.heads), value };
        proof {
            assert(node@.predecessors == self@.heads);
            assert forall|k: int| 0 <= k < node@.predecessors.len() implies self@.nodes.contains_key(
                #[trigger] node@.predecessors[k],
            ) by {
                assert(str_views(self.heads@).contains(str_views(self.heads@)[k]));
            }
        }
        let hash = node.get_hash();
        self.add_node(node);
        Some(hash)
    }

    /// Whether `ancestor` is the digest of `descendant` itself or of one of
    /// its transitive predecessors.  A worklist search with an explicit
    /// visited list, so no digest is expanded twice.
    #[verifier::loop_isolation(false)]
    #[verifier::rlimit(100)]
    pub fn is_ancestor(&self, ancestor: &HashType, descendant: &Node<O>) -> (r: bool)
        requires
            self.wf(),
            spec_struct_valid(self@.nodes, descendant@),
        ensures
            r == node_has_ancestor::<O>(self@.nodes, descendant@, ancestor@),
    {
        let ghost g = self@.nodes;
        let ghost start = descendant@;
        let hash = descendant.get_hash();
        if hash.eq(ancestor) {
            return true;
        }
        proof {
            lemma_assoc_map_finite(self.nodes@);
        }
        let mut queue: Vec<HashType> = dup_string_vec(&descendant.predecessors);
        let mut visited: Vec<HashType> = Vec::new();
        proof {
            assert(str_views(queue@) == start.predecessors);
            assert forall|j: int| 0 <= j < str_views(queue@).len() implies pred_reaches(
                g,
                start,
                #[trigger] str_views(queue@)[j],
            ) by {
                assert(reaches(g, start.predecessors[j], str_views(queue@)[j], 0));
                assert(reachable(g, start.predecessors[j], str_views(queue@)[j]));
            }
            assert forall|i: int| 0 <= i < start.predecessors.len() implies in_work(
                str_views(visited@),
                str_views(queue@),
                #[trigger] start.predecessors[i],
            ) by {
                assert(str_views(queue@)[i] == start.predecessors[i]);
                assert(str_views(queue@).contains(start.predecessors[i]));
            }
        }
        while queue.len() != 0
            invariant
                queue_sound(g, start, str_views(queue@)),
                forall|j: int|
                    0 <= j < queue@.len() ==> g.contains_key(#[trigger] str_views(queue@)[j]),
                forall|j: int|
                    0 <= j < visited@.len() ==> g.contains_key(#[trigger] str_views(visited@)[j]),
                str_views(visited@).no_duplicates(),
                visited@.len() <= g.dom().len(),
                forall|j: int|
                    0 <= j < visited@.len() ==> (#[trigger] str_views(visited@)[j]) != ancestor@,
                start_covered(start, str_views(visited@), str_views(queue@)),
                work_closed(g, str_views(visited@), str_views(queue@)),
            decreases g.dom().len() - visited@.len(), queue@.len(),
        {
            let ghost pre_q = str_views(queue@);
            let ghost vis = str_views(visited@);
            let d = match queue.pop() {
                Some(d) => d,
                None => {
                    proof {
                        assert(false);
                    }
                    return false;
                },
            };
            proof {
                assert(str_views(queue@) =~= pre_q.drop_last());
                assert(d@ == pre_q.last());
            }
            if d.eq(ancestor) {
                proof {
                    assert(pred_reaches(g, start, pre_q.last()));
                }
                return true;
            }
            let seen = contains_string(&visited, &d);
            if seen {
                proof {
                    lemma_work_skip(g, start, vis, pre_q);
                }
                continue ;
            }
            visited.push(d.clone());
            proof {
                assert(str_views(visited@) =~= vis.push(d@));
                assert forall|i2: int, j2: int|
                    0 <= i2 < j2 < str_views(visited@).len() implies str_views(visited@)[i2]
                    != str_views(visited@)[j2] by {
                    if j2 == vis.len() {
                        if vis[i2] == d@ {
                            assert(vis.contains(d@));
                        }
                    }
                }
                assert(g.contains_key(d@));
                lemma_no_dup_subset_len(str_views(visited@), g.dom());
            }
            let node_opt = self.get_node(&d);
            let n = match node_opt {
                Some(n) => n,
                None => {
                    proof {
                        assert(false);
                    }
                    return false;
                },
            };
            let ghost q0 = str_views(queue@);
            let mut k: usize = 0;
            while k < n.predecessors.len()
                invariant
                    k <= n.predecessors@.len(),
                    n@ == g[d@],
                    str_views(queue@) == q0 + g[d@].predecessors.take(k as int),
                decreases n.predecessors@.len() - k,
            {
                let ghost prev_q = queue@;
                queue.push(n.predecessors[k].clone());
                k = k + 1;
                proof {
                    assert(n@.predecessors[k - 1] == n.predecessors@[k - 1]@);
                    assert(queue@ =~= prev_q.push(queue@.last()));
                    assert(queue@.last()@ == g[d@].predecessors[k - 1]);
                    assert(str_views(queue@) =~= str_views(prev_q).push(g[d@].predecessors[k - 1]));
                    assert(g[d@].predecessors.take(k as int) =~= g[d@].predecessors.take(
                        k - 1,
                    ).push(g[d@].predecessors[k - 1]));
                    assert((q0 + g[d@].predecessors.take(k - 1)).push(g[d@].predecessors[k - 1])
                        =~= q0 + g[d@].predecessors.take(k as int));
                    assert(str_views(queue@) =~= q0 + g[d@].predecessors.take(k as int));
                }
            }
            proof {
                let qf = str_views(queue@);
                assert(g[d@].predecessors.take(n.predecessors@.len() as int) =~= g[
                d@].predecessors);
                assert(qf == pre_q.drop_last() + g[d@].predecessors);
                lemma_work_expand(g, start, vis, pre_q);
                assert(str_views(visited@) == vis.push(pre_q.last()));
                // every queued digest is still reachable from a start
                // predecessor, and stored
                assert(pred_reaches(g, start, d@));
                let iw = choose|i: int|
                    0 <= i < start.predecessors.len() && reachable(g, start.predecessors[i], d@);
                let kw = choose|kk: nat| reaches(g, start.predecessors[iw], d@, kk);
                assert forall|j: int| 0 <= j < qf.len() implies pred_reaches(
                    g,
                    start,
                    #[trigger] qf[j],
                ) by {
                    if j < pre_q.len() - 1 {
                        assert(qf[j] == pre_q[j]);
                    } else {
                        let pi = j - (pre_q.len() - 1);
                        assert(qf[j] == g[d@].predecessors[pi]);
                        lemma_reaches_extend(g, start.predecessors[iw], d@, kw, pi);
                        assert(reachable(g, start.predecessors[iw], qf[j]));
                    }
                }
                assert forall|j: int| 0 <= j < qf.len() implies g.contains_key(
                    #[trigger] qf[j],
                ) by {
                    if j < pre_q.len() - 1 {
                        assert(qf[j] == pre_q[j]);
                    } else {
                        assert(qf[j] == g[d@].predecessors[j - (pre_q.len() - 1)]);
                    }
                }
            }
        }
        proof {
            if node_has_ancestor::<O>(g, start, ancestor@) {
                let vis = str_views(visited@);
                let i = choose|i: int|
                    0 <= i < start.predecessors.len() && reachable(
                        g,
                        start.predecessors[i],
                        ancestor@,
                    );
                let k = choose|k: nat| reaches(g, start.predecessors[i], ancestor@, k);
                assert(in_work(vis, str_views(queue@), start.predecessors[i]));
                assert(vis.contains(start.predecessors[i]));
                assert forall|j: int, kk: int|
                    #![trigger g[vis[j]].predecessors[kk]]
                    0 <= j < vis.len() && g.contains_key(vis[j]) && 0 <= kk
                        < g[vis[j]].predecessors.len() implies vis.contains(
                    g[vis[j]].predecessors[kk],
                ) by {
                    assert(in_work(vis, str_views(queue@), g[vis[j]].predecessors[kk]));
                }
                lemma_reaches_in_closed(g, vis, start.predecessors[i], ancestor@, k);
                let j = choose|j: int| 0 <= j < vis.len() && vis[j] == ancestor@;
                assert(false);
            }
        }
        false
    }

    /// The current frontier, as digests.
    pub fn heads(&self) -> (r: Vec<HashType>)
        ensures
            str_views(r@) == self@.heads,
    {
        dup_string_vec(&self.heads)
    }

    /// The number of stored nodes.
    pub fn node_count(&self) -> (r: usize)
        requires
            self.wf(),
        ensures
            r == self@.nodes.dom().len(),
    {
        proof {
            lemma_assoc_map_len(self.nodes@);
        }
        self.nodes.len()
    }
}

} // verus!
