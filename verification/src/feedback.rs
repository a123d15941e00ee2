//! The harvesting hook around the chunk store: when the surrounding
//! fuzzing loop decides a test case is worth keeping, the hook harvests
//! every subtree of the kept derivation tree into the campaign's chunk
//! store. The hook is stateless apart from the store it mutates, and it is
//! the store's single writer of record; it never judges interestingness —
//! that verdict belongs to the external feedback pipeline.
use vstd::prelude::*;
use crate::chunkstore::{ChunkStore, subs_of};
use crate::grammar::Context;
use crate::tree::{NodeV, Tree, wf_sub};

verus! {

/// Fuzzer-state metadata holding the campaign's chunk store.
#[derive(Debug)]
pub struct NautilusChunksMetadata {
    /// The chunk store.
    pub cks: ChunkStore,
}

impl NautilusChunksMetadata {
    /// Creates fresh metadata with an empty store rooted at `work_dir`;
    /// the surrounding loop prepares the directory on disk.
    pub fn new(work_dir: String) -> (m: NautilusChunksMetadata)
        ensures
            forall|sym: int| #[trigger] m.cks.stored(sym) == Set::<Seq<NodeV>>::empty(),
            m.cks.work_dir@ == work_dir@,
            m.cks.entries@.len() == 0,
    {
        let m = NautilusChunksMetadata { cks: ChunkStore::new(work_dir) };
        proof {
            assert forall|sym: int| #[trigger] m.cks.stored(sym) == Set::<
                Seq<NodeV>,
            >::empty() by {
                assert(m.cks.stored(sym) =~= Set::<Seq<NodeV>>::empty());
            }
        }
        m
    }
}

/// The grammar-aware feedback: a thin, stateless hook bound to the
/// campaign's grammar context.
#[derive(Debug)]
pub struct NautilusFeedback<'a> {
    /// The campaign's grammar context, used only to validate symbols while
    /// harvesting.
    pub ctx: &'a Context,
}

impl<'a> NautilusFeedback<'a> {
    /// Creates a new feedback bound to the campaign's grammar context.
    pub fn new(context: &'a Context) -> (f: NautilusFeedback<'a>)
        ensures
            f.ctx == context,
    {
        NautilusFeedback { ctx: context }
    }

    /// The grammar context this hook validates symbols against.
    pub fn context(&self) -> (c: &'a Context)
        ensures
            c == self.ctx,
    {
        self.ctx
    }

    /// This component's name in the fuzzer's listing.
    pub fn name(&self) -> (r: &'static str)
        ensures
            r@ == "NautilusFeedback"@,
    {
        "NautilusFeedback"
    }

    /// The hook never votes to keep an input: the keep verdict comes from
    /// the coverage feedback it is paired with.
    pub fn is_interesting(&self) -> (r: bool)
        ensures
            r == false,
    {
        false
    }

    /// Harvests a kept input's derivation tree: every previously unseen
    /// subtree joins the chunk store under the symbol rooting it. The hook
    /// never vetoes the keep decision and judges nothing itself.
    pub fn append_metadata(&self, meta: &mut NautilusChunksMetadata, input: &Tree)
        requires
            self.ctx.wf(),
            old(meta).cks.wf(*self.ctx),
            wf_sub(self.ctx.rules_seq(), input@),
        ensures
            final(meta).cks.wf(*self.ctx),
            final(meta).cks.work_dir@ == old(meta).cks.work_dir@,
            forall|sym: int|
                0 <= sym < self.ctx.n_syms() ==> #[trigger] final(meta).cks.stored(sym)
                    == old(meta).cks.stored(sym).union(
                    subs_of(self.ctx.rules_seq(), input@, sym),
                ),
            old(meta).cks.entries@.len() <= final(meta).cks.entries@.len(),
            forall|sym: int|
                0 <= sym < old(meta).cks.entries@.len() ==> {
                    &&& old(meta).cks.entries@[sym]@.len()
                        <= (#[trigger] final(meta).cks.entries@[sym])@.len()
                    &&& forall|j: int|
                        0 <= j < old(meta).cks.entries@[sym]@.len()
                            ==> final(meta).cks.entries@[sym]@[j] == old(
                            meta,
                        ).cks.entries@[sym]@[j]
                },
    {
        meta.cks.add_tree(input, self.ctx);
    }

    /// Discarding an input leaves no trace: only kept inputs touch the
    /// store.
    pub fn discard_metadata(&self, meta: &mut NautilusChunksMetadata)
        ensures
            *final(meta) == *old(meta),
    {
    }
}

} // verus!
