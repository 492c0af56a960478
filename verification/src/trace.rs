//! Editing-trace records used to exercise the sequence CRDT.
//!
//! A trace is a list of transactions, each a list of patches: a position, a
//! deletion count and an inserted string.  Loading and decompressing trace
//! files is left to the surrounding program; here live the records
//! themselves and the little arithmetic over them.

use vstd::prelude::*;

verus! {

/// One edit: position, number of deleted characters, inserted text.
pub struct TestPatch(pub usize, pub usize, pub String);

impl TestPatch {
    /// A copy of the patch.
    pub fn dup(&self) -> (r: TestPatch)
        ensures
            r == *self,
    {
        TestPatch(self.0, self.1, self.2.clone())
    }
}

/// One transaction of a trace.
pub struct TestTxn {
    pub patches: Vec<TestPatch>,
    pub agent: Option<usize>,
    pub num_children: Option<usize>,
    pub parents: Option<Vec<usize>>,
}

/// A whole editing trace.
pub struct TestData {
    pub using_byte_positions: bool,
    pub start_content: Option<String>,
    pub end_content: String,
    pub num_agents: Option<usize>,
    pub txns: Vec<TestTxn>,
}

/// All patches of the given transactions, in order.
pub open spec fn spec_all_patches(s: Seq<TestTxn>) -> Seq<TestPatch>
    decreases s.len(),
{
    if s.len() == 0 {
        Seq::empty()
    } else {
        s[0].patches@ + spec_all_patches(s.drop_first())
    }
}

proof fn lemma_all_patches_push(s: Seq<TestTxn>, t: TestTxn)
    ensures
        spec_all_patches(s.push(t)) == spec_all_patches(s) + t.patches@,
    decreases s.len(),
{
    if s.len() == 0 {
        assert(s.push(t)[0] == t);
        assert(s.push(t).drop_first() =~= s);
        assert(spec_all_patches(s.push(t)) =~= spec_all_patches(s) + t.patches@);
    } else {
        assert(s.push(t)[0] == s[0]);
        assert(s.push(t).drop_first() =~= s.drop_first().push(t));
        lemma_all_patches_push(s.drop_first(), t);
        assert(spec_all_patches(s.push(t)) =~= spec_all_patches(s) + t.patches@);
    }
}

impl TestData {
    /// The number of patches across all transactions.
    #[verifier::loop_isolation(false)]
    pub fn len(&self) -> (r: usize)
        requires
            spec_all_patches(self.txns@).len() <= usize::MAX,
        ensures
            r == spec_all_patches(self.txns@).len(),
    {
        let ghost txns = self.txns@;
        let mut total: usize = 0;
        let mut i: usize = 0;
        while i < self.txns.len()
            invariant
                i <= txns.len(),
                total == spec_all_patches(txns.take(i as int)).len(),
            decreases txns.len() - i,
        {
            proof {
                assert(txns.take(i + 1).drop_last() =~= txns.take(i as int));
                assert(txns.take(i + 1) =~= txns.take(i as int).push(txns[i as int]));
                lemma_all_patches_push(txns.take(i as int), txns[i as int]);
                lemma_all_patches_prefix(txns, i + 1);
                assert(spec_all_patches(txns.take(i + 1)).len() <= spec_all_patches(txns).len());
            }
            total = total + self.txns[i].patches.len();
            i = i + 1;
        }
        proof {
            assert(txns.take(txns.len() as int) =~= txns);
        }
        total
    }

    /// Whether no transaction carries a patch.
    #[verifier::loop_isolation(false)]
    pub fn is_empty(&self) -> (r: bool)
        ensures
            r == (spec_all_patches(self.txns@).len() == 0),
    {
        let ghost txns = self.txns@;
        let mut i: usize = 0;
        while i < self.txns.len()
            invariant
                i <= txns.len(),
                spec_all_patches(txns.take(i as int)).len() == 0,
            decreases txns.len() - i,
        {
            proof {
                assert(txns.take(i + 1).drop_last() =~= txns.take(i as int));
                assert(txns.take(i + 1) =~= txns.take(i as int).push(txns[i as int]));
                lemma_all_patches_push(txns.take(i as int), txns[i as int]);
            }
            if self.txns[i].patches.len() != 0 {
                proof {
                    lemma_all_patches_prefix(txns, i + 1);
                }
                return false;
            }
            i = i + 1;
        }
        proof {
            assert(txns.take(txns.len() as int) =~= txns);
        }
        true
    }

    /// All patches, flattened in order.
    #[verifier::loop_isolation(false)]
    pub fn patches(&self) -> (r: Vec<TestPatch>)
        ensures
            r@ == spec_all_patches(self.txns@),
    {
        let ghost txns = self.txns@;
        let mut r: Vec<TestPatch> = Vec::new();
        let mut i: usize = 0;
        while i < self.txns.len()
            invariant
                i <= txns.len(),
                r@ == spec_all_patches(txns.take(i as int)),
            decreases txns.len() - i,
        {
            let ghost before = r@;
            let txn = &self.txns[i];
            let mut k: usize = 0;
            while k < txn.patches.len()
                invariant
                    k <= txn.patches@.len(),
                    r@ == before + txn.patches@.take(k as int),
                decreases txn.patches@.len() - k,
            {
                r.push(txn.patches[k].dup());
                k = k + 1;
                proof {
                    assert(r@ =~= before + txn.patches@.take(k as int));
                }
            }
            i = i + 1;
            proof {
                assert(txn.patches@.take(txn.patches@.len() as int) =~= txn.patches@);
                assert(txns.take(i as int).drop_last() =~= txns.take(i - 1));
                assert(txns.take(i as int) =~= txns.take(i - 1).push(txns[i - 1]));
                lemma_all_patches_push(txns.take(i - 1), txns[i - 1]);
            }
        }
        proof {
            assert(txns.take(txns.len() as int) =~= txns);
        }
        r
    }
}

/// A prefix contributes a prefix of the flattened patches.
proof fn lemma_all_patches_prefix(s: Seq<TestTxn>, i: int)
    requires
        0 <= i <= s.len(),
    ensures
        spec_all_patches(s.take(i)).len() <= spec_all_patches(s).len(),
    decreases s.len() - i,
{
    if i == s.len() {
        assert(s.take(i) =~= s);
    } else {
        assert(s.take(i + 1).drop_last() =~= s.take(i));
        assert(s.take(i + 1) =~= s.take(i).push(s[i]));
        lemma_all_patches_push(s.take(i), s[i]);
        lemma_all_patches_prefix(s, i + 1);
    }
}

} // verus!
