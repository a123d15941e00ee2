//! The chunk store: a per-campaign library of previously harvested
//! subtrees, indexed by the grammar symbol each subtree produces and
//! deduplicated by content, used to splice real fragments into future
//! mutations. It only ever grows during a run; merging with another store
//! is purely additive, so merges commute.
use vstd::prelude::*;
use crate::grammar::{Context, RuleV};
use crate::tree::{Node, NodeV, Tree, nodes_view, n_len, wf_sub, root_sym, lemma_node_at, Rng};

verus! {

/// Symbol produced by a node: the owning rule's nonterminal for a rule
/// application, none (encoded as -1) for a terminal leaf.
pub open spec fn node_sym(rules: Seq<RuleV>, n: NodeV) -> int {
    match n {
        NodeV::Leaf { .. } => -1,
        NodeV::Apply { rule, .. } => if 0 <= rule < rules.len() {
            rules[rule].nonterm
        } else {
            -1
        },
    }
}

/// The subtrees rooted at symbol `sym` among the first `k` nodes of `t`,
/// each as the contiguous slice it occupies.
pub open spec fn subs_upto(rules: Seq<RuleV>, t: Seq<NodeV>, sym: int, k: int) -> Set<
    Seq<NodeV>,
> {
    Set::new(
        |sub: Seq<NodeV>|
            exists|i: int|
                0 <= i < k && node_sym(rules, #[trigger] t[i]) == sym && sub == t.subrange(
                    i,
                    i + n_len(t[i]),
                ),
    )
}

/// All subtrees of `t` rooted at symbol `sym`.
pub open spec fn subs_of(rules: Seq<RuleV>, t: Seq<NodeV>, sym: int) -> Set<Seq<NodeV>> {
    subs_upto(rules, t, sym, t.len() as int)
}

/// A deduplicated, per-symbol library of harvested subtrees.
#[derive(Debug)]
pub struct ChunkStore {
    /// The campaign work directory under which the surrounding loop keeps
    /// this store's on-disk snapshot.
    pub work_dir: String,
    /// For each symbol id, the stored subtrees rooted at it, in insertion
    /// order and free of duplicates.
    pub entries: Vec<Vec<Tree>>,
}

/// One flattened snapshot line: a stored subtree and the symbol rooting it.
#[derive(Debug)]
pub struct SnapshotEntry {
    /// The symbol the subtree is stored under.
    pub symbol: usize,
    /// The stored subtree.
    pub tree: Tree,
}

impl ChunkStore {
    /// The set of stored subtree contents for one symbol.
    pub open spec fn stored(self, sym: int) -> Set<Seq<NodeV>> {
        if 0 <= sym < self.entries@.len() {
            Set::new(
                |t: Seq<NodeV>|
                    exists|j: int|
                        0 <= j < self.entries@[sym]@.len() && (#[trigger] self.entries@[sym]@[j])@
                            == t,
            )
        } else {
            Set::empty()
        }
    }

    /// Internal invariant relative to a context: every stored subtree is
    /// well formed and rooted at the symbol it is stored under, and each
    /// symbol's collection is free of content duplicates — the dedup index
    /// admits each content at most once.
    pub open spec fn wf(self, ctx: Context) -> bool {
        &&& self.entries@.len() <= ctx.n_syms()
        &&& forall|sym: int, j: int|
            0 <= sym < self.entries@.len() && 0 <= j < self.entries@[sym]@.len() ==> {
                let t = (#[trigger] self.entries@[sym]@[j])@;
                &&& wf_sub(ctx.rules_seq(), t)
                &&& root_sym(ctx.rules_seq(), t) == sym
            }
        &&& forall|sym: int, j1: int, j2: int|
            0 <= sym < self.entries@.len() && 0 <= j1 < j2 < self.entries@[sym]@.len() ==> (
            #[trigger] self.entries@[sym]@[j1])@ != (#[trigger] self.entries@[sym]@[j2])@
    }

    /// Creates an empty store for a campaign rooted at `work_dir`.
    pub fn new(work_dir: String) -> (s: ChunkStore)
        ensures
            forall|sym: int| #[trigger] s.stored(sym) =~= Set::<Seq<NodeV>>::empty(),
            s.entries@.len() == 0,
            s.work_dir@ == work_dir@,
    {
        ChunkStore { work_dir, entries: Vec::new() }
    }
}

/// Whether two byte vectors hold the same bytes.
fn bytes_eq(a: &Vec<u8>, b: &Vec<u8>) -> (r: bool)
    ensures
        r <==> a@ == b@,
{
    if a.len() != b.len() {
        proof {
            assert(a@.len() != b@.len());
        }
        return false;
    }
    let n = a.len();
    for i in 0..n
        invariant
            n == a@.len(),
            n == b@.len(),
            forall|m: int| 0 <= m < i ==> a@[m] == b@[m],
    {
        if a[i] != b[i] {
            return false;
        }
    }
    proof {
        assert(a@ =~= b@);
    }
    true
}

/// Whether two node vectors denote the same node sequence.
fn nodes_eq(a: &Vec<Node>, b: &Vec<Node>) -> (r: bool)
    ensures
        r <==> nodes_view(a@) == nodes_view(b@),
{
    if a.len() != b.len() {
        proof {
            assert(nodes_view(a@).len() != nodes_view(b@).len());
        }
        return false;
    }
    let n = a.len();
    for i in 0..n
        invariant
            n == a@.len(),
            n == b@.len(),
            forall|m: int| 0 <= m < i ==> nodes_view(a@)[m] == nodes_view(b@)[m],
    {
        let same = match (&a[i], &b[i]) {
            (Node::Leaf { bytes: ba }, Node::Leaf { bytes: bb }) => bytes_eq(ba, bb),
            (Node::Apply { rule: ra, len: la }, Node::Apply { rule: rb, len: lb }) => ra == rb
                && la == lb,
            _ => false,
        };
        if !same {
            proof {
                assert(nodes_view(a@)[i as int] != nodes_view(b@)[i as int]);
            }
            return false;
        }
        proof {
            assert(nodes_view(a@)[i as int] == nodes_view(b@)[i as int]);
        }
    }
    proof {
        assert(nodes_view(a@) =~= nodes_view(b@));
    }
    true
}

/// Whether a subtree with these nodes is already stored in `list`.
fn list_contains(list: &Vec<Tree>, sub: &Vec<Node>) -> (r: bool)
    ensures
        r <==> exists|j: int| 0 <= j < list@.len() && (#[trigger] list@[j])@ == nodes_view(sub@),
{
    let n = list.len();
    for j in 0..n
        invariant
            n == list@.len(),
            forall|m: int| 0 <= m < j ==> (#[trigger] list@[m])@ != nodes_view(sub@),
    {
        if nodes_eq(&list[j].nodes, sub) {
            proof {
                assert((list@[j as int])@ == nodes_view(sub@));
            }
            return true;
        }
        proof {
            assert((list@[j as int])@ =~= nodes_view(list@[j as int].nodes@));
        }
    }
    false
}

impl ChunkStore {
    /// Appends one subtree to one symbol's collection, leaving every other
    /// collection untouched.
    fn push_entry(&mut self, sym: usize, t: Tree)
        requires
            (sym as int) < old(self).entries@.len(),
        ensures
            final(self).entries@.len() == old(self).entries@.len(),
            final(self).entries@[sym as int]@ == old(self).entries@[sym as int]@.push(t),
            forall|s2: int|
                0 <= s2 < final(self).entries@.len() && s2 != sym as int
                    ==> #[trigger] final(self).entries@[s2] == old(self).entries@[s2],
            final(self).work_dir@ == old(self).work_dir@,
    {
        let ghost pre = self.entries@;
        let mut inner = self.entries.remove(sym);
        inner.push(t);
        self.entries.insert(sym, inner);
        proof {
            assert forall|s2: int|
                0 <= s2 < self.entries@.len() && s2 != sym as int implies #[trigger] self
                .entries@[s2] == pre[s2] by {
                if s2 < sym as int {
                } else {
                }
            }
            assert(self.entries@[sym as int]@ =~= pre[sym as int]@.push(t));
        }
    }

    /// Harvests every subtree of `tree`: each rule-application node's
    /// subtree slice is inserted under the symbol its rule produces, unless
    /// an identical subtree is already stored there. Re-adding already-seen
    /// subtrees is a no-op, so the call is idempotent and the store only
    /// ever grows.
    pub fn add_tree(&mut self, tree: &Tree, ctx: &Context)
        requires
            ctx.wf(),
            old(self).wf(*ctx),
            wf_sub(ctx.rules_seq(), tree@),
        ensures
            final(self).wf(*ctx),
            final(self).work_dir@ == old(self).work_dir@,
            forall|sym: int|
                0 <= sym < ctx.n_syms() ==> #[trigger] final(self).stored(sym)
                    == old(self).stored(sym).union(subs_of(ctx.rules_seq(), tree@, sym)),
            forall|sym: int|
                !(0 <= sym < ctx.n_syms()) ==> #[trigger] final(self).stored(sym)
                    == old(self).stored(sym),
            old(self).entries@.len() <= final(self).entries@.len(),
            forall|sym: int|
                0 <= sym < old(self).entries@.len() ==> {
                    &&& old(self).entries@[sym]@.len()
                        <= (#[trigger] final(self).entries@[sym])@.len()
                    &&& forall|j: int|
                        0 <= j < old(self).entries@[sym]@.len()
                            ==> final(self).entries@[sym]@[j] == old(self).entries@[sym]@[j]
                },
    {
        let ghost rv = ctx.rules_seq();
        let ghost tv = tree@;
        let ghost orig = *self;
        let n_syms = ctx.num_symbols();
        while self.entries.len() < n_syms
            invariant
                orig.wf(*ctx),
                orig.entries@.len() <= self.entries@.len() <= ctx.n_syms(),
                n_syms == ctx.n_syms(),
                self.work_dir@ == orig.work_dir@,
                forall|s2: int|
                    0 <= s2 < orig.entries@.len() ==> #[trigger] self.entries@[s2]
                        == orig.entries@[s2],
                forall|s2: int|
                    orig.entries@.len() <= s2 < self.entries@.len() ==> (
                    #[trigger] self.entries@[s2])@.len() == 0,
            decreases n_syms - self.entries@.len(),
        {
            self.entries.push(Vec::new());
        }
        proof {
            assert forall|sym: int| #[trigger] self.stored(sym) =~= orig.stored(sym) by {
                if 0 <= sym < orig.entries@.len() {
                } else {
                }
            }
            assert(self.wf(*ctx));
        }
        let ghost grown = *self;
        let n_nodes = tree.nodes.len();
        for i in 0..n_nodes
            invariant
                ctx.wf(),
                rv == ctx.rules_seq(),
                tv == tree@,
                wf_sub(rv, tv),
                n_nodes == tree.nodes@.len(),
                n_nodes == tv.len(),
                self.wf(*ctx),
                self.entries@.len() == ctx.n_syms(),
                grown.entries@.len() == ctx.n_syms(),
                self.work_dir@ == grown.work_dir@,
                forall|sym: int|
                    0 <= sym < ctx.n_syms() ==> #[trigger] self.stored(sym) == grown.stored(
                        sym,
                    ).union(subs_upto(rv, tv, sym, i as int)),
                forall|s2: int|
                    0 <= s2 < ctx.n_syms() ==> {
                        &&& grown.entries@[s2]@.len() <= (#[trigger] self.entries@[s2])@.len()
                        &&& forall|j: int|
                            0 <= j < grown.entries@[s2]@.len() ==> self.entries@[s2]@[j]
                                == grown.entries@[s2]@[j]
                    },
        {
            let ghost pre_store = *self;
            proof {
                lemma_node_at(rv, tv, i as int);
            }
            let node_is_apply: bool = match &tree.nodes[i] {
                Node::Leaf { .. } => false,
                Node::Apply { .. } => true,
            };
            if node_is_apply {
                let (rule_id, l): (usize, usize) = match &tree.nodes[i] {
                    Node::Apply { rule, len } => (*rule, *len),
                    Node::Leaf { .. } => (0, 0),
                };
                proof {
                    let slice = tv.subrange(i as int, i + n_len(tv[i as int]));
                    assert(wf_sub(rv, slice));
                    assert(slice[0] == tv[i as int]);
                    assert(0 <= (rule_id as int) < rv.len());
                    assert(crate::grammar::rule_wf(rv[rule_id as int], ctx.n_syms()));
                }
                let sym = ctx.rules[rule_id].nonterm;
                let sub = crate::tree::copy_range(&tree.nodes, i, i + l);
                let ghost slice = tv.subrange(i as int, i + n_len(tv[i as int]));
                let is_dup = list_contains(&self.entries[sym], &sub);
                if !is_dup {
                    self.push_entry(sym, Tree { nodes: sub });
                }
                proof {
                    let symi = sym as int;
                    // The one new candidate subtree of this step.
                    assert forall|s2: int| 0 <= s2 < ctx.n_syms() && s2 != symi implies subs_upto(
                        rv,
                        tv,
                        s2,
                        i + 1,
                    ) =~= subs_upto(rv, tv, s2, i as int) by {
                        assert forall|x: Seq<NodeV>|
                            subs_upto(rv, tv, s2, i + 1).contains(x) implies subs_upto(
                            rv,
                            tv,
                            s2,
                            i as int,
                        ).contains(x) by {
                            let w = choose|w: int|
                                0 <= w < i + 1 && node_sym(rv, #[trigger] tv[w]) == s2 && x
                                    == tv.subrange(w, w + n_len(tv[w]));
                            assert(w < i);
                        }
                    }
                    assert(subs_upto(rv, tv, symi, i + 1) =~= subs_upto(
                        rv,
                        tv,
                        symi,
                        i as int,
                    ).insert(slice)) by {
                        assert forall|x: Seq<NodeV>|
                            subs_upto(rv, tv, symi, i + 1).contains(x) implies subs_upto(
                            rv,
                            tv,
                            symi,
                            i as int,
                        ).insert(slice).contains(x) by {
                            let w = choose|w: int|
                                0 <= w < i + 1 && node_sym(rv, #[trigger] tv[w]) == symi && x
                                    == tv.subrange(w, w + n_len(tv[w]));
                            if w < i {
                                assert(subs_upto(rv, tv, symi, i as int).contains(x));
                            }
                        }
                        assert(node_sym(rv, tv[i as int]) == symi);
                        assert(subs_upto(rv, tv, symi, i + 1).contains(slice));
                        assert forall|x: Seq<NodeV>|
                            subs_upto(rv, tv, symi, i as int).insert(slice).contains(
                            x,
                        ) implies subs_upto(rv, tv, symi, i + 1).contains(x) by {
                            if x == slice {
                            } else {
                                let w = choose|w: int|
                                    0 <= w < i && node_sym(rv, #[trigger] tv[w]) == symi && x
                                        == tv.subrange(w, w + n_len(tv[w]));
                            }
                        }
                    }
                    // How the stored sets moved.
                    if is_dup {
                        assert(pre_store.stored(symi).contains(slice)) by {
                            let j = choose|j: int|
                                0 <= j < pre_store.entries@[symi]@.len() && (
                                #[trigger] pre_store.entries@[symi]@[j])@ == nodes_view(sub@);
                            assert((pre_store.entries@[symi]@[j])@ == slice);
                        }
                        assert forall|s2: int| 0 <= s2 < ctx.n_syms() implies #[trigger] self
                            .stored(s2) =~= grown.stored(s2).union(
                            subs_upto(rv, tv, s2, i + 1),
                        ) by {
                            if s2 == symi {
                                assert(grown.stored(s2).union(
                                    subs_upto(rv, tv, s2, i as int),
                                ).contains(slice));
                            }
                        }
                    } else {
                        assert forall|s2: int| 0 <= s2 < ctx.n_syms() implies #[trigger] self
                            .stored(s2) =~= grown.stored(s2).union(
                            subs_upto(rv, tv, s2, i + 1),
                        ) by {
                            if s2 == symi {
                                assert forall|x: Seq<NodeV>| self.stored(s2).contains(
                                    x,
                                ) implies grown.stored(s2).union(
                                    subs_upto(rv, tv, s2, i + 1),
                                ).contains(x) by {
                                    let j = choose|j: int|
                                        0 <= j < self.entries@[s2]@.len() && (
                                        #[trigger] self.entries@[s2]@[j])@ == x;
                                    if j < self.entries@[s2]@.len() - 1 {
                                        assert(pre_store.stored(s2).contains(x));
                                    } else {
                                        assert(x == slice);
                                    }
                                }
                                assert forall|x: Seq<NodeV>|
                                    grown.stored(s2).union(
                                        subs_upto(rv, tv, s2, i + 1),
                                    ).contains(x) implies self.stored(s2).contains(x) by {
                                    if x == slice {
                                        let j = self.entries@[s2]@.len() - 1;
                                        assert((self.entries@[s2]@[j])@ == x);
                                    } else {
                                        assert(pre_store.stored(s2).contains(x));
                                        let j = choose|j: int|
                                            0 <= j < pre_store.entries@[s2]@.len() && (
                                            #[trigger] pre_store.entries@[s2]@[j])@ == x;
                                        assert((self.entries@[s2]@[j])@ == x);
                                    }
                                }
                            } else {
                                assert(self.stored(s2) =~= pre_store.stored(s2));
                            }
                        }
                        // Well-formedness and dedup of the one new entry.
                        assert(self.wf(*ctx)) by {
                            assert forall|s2: int, j: int|
                                0 <= s2 < self.entries@.len() && 0 <= j
                                    < self.entries@[s2]@.len() implies {
                                let t = (#[trigger] self.entries@[s2]@[j])@;
                                &&& wf_sub(ctx.rules_seq(), t)
                                &&& root_sym(ctx.rules_seq(), t) == s2
                            } by {
                                if s2 == symi && j == self.entries@[s2]@.len() - 1 {
                                    assert((self.entries@[s2]@[j])@ == slice);
                                } else {
                                    assert(self.entries@[s2]@[j] == pre_store.entries@[s2]@[j]);
                                }
                            }
                            assert forall|s2: int, j1: int, j2: int|
                                0 <= s2 < self.entries@.len() && 0 <= j1 < j2
                                    < self.entries@[s2]@.len() implies (
                            #[trigger] self.entries@[s2]@[j1])@ != (
                            #[trigger] self.entries@[s2]@[j2])@ by {
                                if s2 == symi && j2 == self.entries@[s2]@.len() - 1 {
                                    assert(self.entries@[s2]@[j1] == pre_store.entries@[s2]@[j1]);
                                    assert((pre_store.entries@[s2]@[j1])@ != nodes_view(sub@));
                                    assert((self.entries@[s2]@[j2])@ == slice);
                                } else {
                                    assert(self.entries@[s2]@[j1] == pre_store.entries@[s2]@[j1]);
                                    assert(self.entries@[s2]@[j2] == pre_store.entries@[s2]@[j2]);
                                }
                            }
                        }
                    }
                }
            } else {
                proof {
                    assert(node_sym(rv, tv[i as int]) == -1);
                    assert forall|s2: int| 0 <= s2 < ctx.n_syms() implies subs_upto(
                        rv,
                        tv,
                        s2,
                        i + 1,
                    ) =~= subs_upto(rv, tv, s2, i as int) by {
                        assert forall|x: Seq<NodeV>|
                            subs_upto(rv, tv, s2, i + 1).contains(x) implies subs_upto(
                            rv,
                            tv,
                            s2,
                            i as int,
                        ).contains(x) by {
                            let w = choose|w: int|
                                0 <= w < i + 1 && node_sym(rv, #[trigger] tv[w]) == s2 && x
                                    == tv.subrange(w, w + n_len(tv[w]));
                            assert(w < i);
                        }
                    }
                }
            }
        }
        proof {
            assert forall|sym: int| 0 <= sym < ctx.n_syms() implies #[trigger] self.stored(sym)
                == orig.stored(sym).union(subs_of(rv, tv, sym)) by {
                assert(subs_upto(rv, tv, sym, n_nodes as int) =~= subs_of(rv, tv, sym));
                assert(self.stored(sym) =~= orig.stored(sym).union(subs_of(rv, tv, sym)));
            }
            assert forall|sym: int| !(0 <= sym < ctx.n_syms()) implies #[trigger] self.stored(
                sym,
            ) == orig.stored(sym) by {
                assert(self.stored(sym) =~= orig.stored(sym));
            }
            assert forall|sym: int| 0 <= sym < orig.entries@.len() implies {
                &&& orig.entries@[sym]@.len() <= (#[trigger] self.entries@[sym])@.len()
                &&& forall|j: int|
                    0 <= j < orig.entries@[sym]@.len() ==> self.entries@[sym]@[j]
                        == orig.entries@[sym]@[j]
            } by {
                assert(grown.entries@[sym] == orig.entries@[sym]);
            }
        }
    }
}

/// The stored contents of the first `k` trees of one symbol's collection.
pub open spec fn list_set(l: Seq<Tree>, k: int) -> Set<Seq<NodeV>> {
    Set::new(|t: Seq<NodeV>| exists|j: int| 0 <= j < k && (#[trigger] l[j])@ == t)
}

/// The contents stored under `sym` among the first `k` snapshot lines.
pub open spec fn snapshot_set_upto(es: Seq<SnapshotEntry>, sym: int, k: int) -> Set<Seq<NodeV>> {
    Set::new(
        |t: Seq<NodeV>|
            exists|j: int| 0 <= j < k && (#[trigger] es[j]).symbol == sym && es[j].tree@ == t,
    )
}

/// The contents stored under `sym` in a full snapshot.
pub open spec fn snapshot_set(es: Seq<SnapshotEntry>, sym: int) -> Set<Seq<NodeV>> {
    snapshot_set_upto(es, sym, es.len() as int)
}

/// The flattening of per-symbol collections into snapshot lines: symbol by
/// ascending id, and within one symbol in insertion order. Pinning this
/// order makes the serialized snapshot a deterministic function of the
/// store.
pub open spec fn spec_flatten(lists: Seq<Vec<Tree>>) -> Seq<(int, Seq<NodeV>)>
    decreases lists.len(),
{
    if lists.len() == 0 {
        Seq::empty()
    } else {
        spec_flatten(lists.drop_last()) + lists.last()@.map(
            |j: int, t: Tree| ((lists.len() - 1) as int, t@),
        )
    }
}

/// The line a snapshot entry denotes.
pub open spec fn line_of(e: SnapshotEntry) -> (int, Seq<NodeV>) {
    (e.symbol as int, e.tree@)
}

impl ChunkStore {
    /// A uniformly drawn stored subtree for `symbol`, or nothing when that
    /// symbol has no entries yet: callers must fall back to fresh
    /// generation.
    pub fn sample(&self, symbol: usize, rng: &mut Rng) -> (r: Option<Tree>)
        ensures
            match r {
                Some(t) => self.stored(symbol as int).contains(t@),
                None => (symbol as int) >= self.entries@.len() || self.entries@[
                    symbol as int
                ]@.len() == 0,
            },
    {
        if symbol >= self.entries.len() {
            return None;
        }
        let n = self.entries[symbol].len();
        if n == 0 {
            return None;
        }
        let j = rng.below(n);
        let src = &self.entries[symbol][j];
        let len = src.nodes.len();
        let nodes = crate::tree::copy_range(&src.nodes, 0, len);
        let t = Tree { nodes };
        proof {
            assert(t@ =~= (self.entries@[symbol as int]@[j as int])@);
        }
        Some(t)
    }

    /// Adds every subtree stored in `other`, deduplicating by content.
    /// Merging is purely additive, so it commutes: merging independently
    /// grown stores in either order yields the same per-symbol sets.
    pub fn merge(&mut self, other: &ChunkStore, ctx: &Context)
        requires
            ctx.wf(),
            old(self).wf(*ctx),
            other.wf(*ctx),
        ensures
            final(self).wf(*ctx),
            final(self).work_dir@ == old(self).work_dir@,
            forall|sym: int|
                0 <= sym < ctx.n_syms() ==> #[trigger] final(self).stored(sym)
                    == old(self).stored(sym).union(other.stored(sym)),
            forall|sym: int|
                !(0 <= sym < ctx.n_syms()) ==> #[trigger] final(self).stored(sym)
                    == old(self).stored(sym),
            old(self).entries@.len() <= final(self).entries@.len(),
            forall|sym: int|
                0 <= sym < old(self).entries@.len() ==> {
                    &&& old(self).entries@[sym]@.len()
                        <= (#[trigger] final(self).entries@[sym])@.len()
                    &&& forall|j: int|
                        0 <= j < old(self).entries@[sym]@.len()
                            ==> final(self).entries@[sym]@[j] == old(self).entries@[sym]@[j]
                },
    {
        let ghost orig = *self;
        let n_syms = ctx.num_symbols();
        while self.entries.len() < n_syms
            invariant
                orig.wf(*ctx),
                orig.entries@.len() <= self.entries@.len() <= ctx.n_syms(),
                n_syms == ctx.n_syms(),
                self.work_dir@ == orig.work_dir@,
                forall|s2: int|
                    0 <= s2 < orig.entries@.len() ==> #[trigger] self.entries@[s2]
                        == orig.entries@[s2],
                forall|s2: int|
                    orig.entries@.len() <= s2 < self.entries@.len() ==> (
                    #[trigger] self.entries@[s2])@.len() == 0,
            decreases n_syms - self.entries@.len(),
        {
            self.entries.push(Vec::new());
        }
        proof {
            assert forall|sym: int| #[trigger] self.stored(sym) =~= orig.stored(sym) by {
                if 0 <= sym < orig.entries@.len() {
                } else {
                }
            }
            assert(self.wf(*ctx));
        }
        let ghost grown = *self;
        let n_other = other.entries.len();
        proof {
            assert(n_other <= ctx.n_syms());
        }
        for sym in 0..n_other
            invariant
                ctx.wf(),
                other.wf(*ctx),
                n_other == other.entries@.len(),
                n_other <= ctx.n_syms(),
                self.wf(*ctx),
                self.entries@.len() == ctx.n_syms(),
                grown.entries@.len() == ctx.n_syms(),
                self.work_dir@ == grown.work_dir@,
                forall|s2: int|
                    0 <= s2 < sym ==> #[trigger] self.stored(s2) == grown.stored(s2).union(
                        other.stored(s2),
                    ),
                forall|s2: int|
                    sym <= s2 < ctx.n_syms() ==> #[trigger] self.stored(s2) == grown.stored(s2),
                forall|s2: int|
                    0 <= s2 < ctx.n_syms() ==> {
                        &&& grown.entries@[s2]@.len() <= (#[trigger] self.entries@[s2])@.len()
                        &&& forall|j2: int|
                            0 <= j2 < grown.entries@[s2]@.len() ==> self.entries@[s2]@[j2]
                                == grown.entries@[s2]@[j2]
                    },
        {
            let n_list = other.entries[sym].len();
            for j in 0..n_list
                invariant
                    ctx.wf(),
                    other.wf(*ctx),
                    n_other == other.entries@.len(),
                    sym < n_other,
                    n_other <= ctx.n_syms(),
                    n_list == other.entries@[sym as int]@.len(),
                    self.wf(*ctx),
                    self.entries@.len() == ctx.n_syms(),
                    grown.entries@.len() == ctx.n_syms(),
                    self.work_dir@ == grown.work_dir@,
                    forall|s2: int|
                        0 <= s2 < ctx.n_syms() ==> {
                            &&& grown.entries@[s2]@.len() <= (#[trigger] self.entries@[s2])@.len()
                            &&& forall|j2: int|
                                0 <= j2 < grown.entries@[s2]@.len() ==> self.entries@[s2]@[j2]
                                    == grown.entries@[s2]@[j2]
                        },
                    forall|s2: int|
                        0 <= s2 < sym ==> #[trigger] self.stored(s2) == grown.stored(s2).union(
                            other.stored(s2),
                        ),
                    forall|s2: int|
                        sym < s2 < ctx.n_syms() ==> #[trigger] self.stored(s2) == grown.stored(
                            s2,
                        ),
                    self.stored(sym as int) == grown.stored(sym as int).union(
                        list_set(other.entries@[sym as int]@, j as int),
                    ),
            {
                let ghost pre_store = *self;
                let src = &other.entries[sym][j];
                let len = src.nodes.len();
                let sub = crate::tree::copy_range(&src.nodes, 0, len);
                let ghost sv = (other.entries@[sym as int]@[j as int])@;
                proof {
                    assert(nodes_view(sub@) =~= sv);
                }
                let is_dup = list_contains(&self.entries[sym], &sub);
                if !is_dup {
                    self.push_entry(sym, Tree { nodes: sub });
                }
                proof {
                    let symi = sym as int;
                    assert(list_set(other.entries@[symi]@, j + 1) =~= list_set(
                        other.entries@[symi]@,
                        j as int,
                    ).insert(sv)) by {
                        assert forall|x: Seq<NodeV>|
                            list_set(other.entries@[symi]@, j + 1).contains(x) implies list_set(
                            other.entries@[symi]@,
                            j as int,
                        ).insert(sv).contains(x) by {
                            let w = choose|w: int|
                                0 <= w < j + 1 && (#[trigger] other.entries@[symi]@[w])@ == x;
                            if w < j {
                                assert(list_set(other.entries@[symi]@, j as int).contains(x));
                            }
                        }
                        assert((other.entries@[symi]@[j as int])@ == sv);
                        assert(list_set(other.entries@[symi]@, j + 1).contains(sv));
                        assert forall|x: Seq<NodeV>|
                            list_set(other.entries@[symi]@, j as int).insert(sv).contains(
                            x,
                        ) implies list_set(other.entries@[symi]@, j + 1).contains(x) by {
                            if x == sv {
                            } else {
                                let w = choose|w: int|
                                    0 <= w < j && (#[trigger] other.entries@[symi]@[w])@ == x;
                            }
                        }
                    }
                    if is_dup {
                        assert(pre_store.stored(symi).contains(sv)) by {
                            let w = choose|w: int|
                                0 <= w < pre_store.entries@[symi]@.len() && (
                                #[trigger] pre_store.entries@[symi]@[w])@ == nodes_view(sub@);
                        }
                        assert(self.stored(symi) =~= grown.stored(symi).union(
                            list_set(other.entries@[symi]@, j + 1),
                        ));
                    } else {
                        assert(self.stored(symi) =~= grown.stored(symi).union(
                            list_set(other.entries@[symi]@, j + 1),
                        )) by {
                            assert forall|x: Seq<NodeV>| self.stored(symi).contains(
                                x,
                            ) implies grown.stored(symi).union(
                                list_set(other.entries@[symi]@, j + 1),
                            ).contains(x) by {
                                let w = choose|w: int|
                                    0 <= w < self.entries@[symi]@.len() && (
                                    #[trigger] self.entries@[symi]@[w])@ == x;
                                if w < self.entries@[symi]@.len() - 1 {
                                    assert(pre_store.stored(symi).contains(x));
                                } else {
                                    assert(x == sv);
                                }
                            }
                            assert forall|x: Seq<NodeV>|
                                grown.stored(symi).union(
                                    list_set(other.entries@[symi]@, j + 1),
                                ).contains(x) implies self.stored(symi).contains(x) by {
                                if x == sv {
                                    let w = self.entries@[symi]@.len() - 1;
                                    assert((self.entries@[symi]@[w])@ == x);
                                } else {
                                    assert(pre_store.stored(symi).contains(x));
                                    let w = choose|w: int|
                                        0 <= w < pre_store.entries@[symi]@.len() && (
                                        #[trigger] pre_store.entries@[symi]@[w])@ == x;
                                    assert((self.entries@[symi]@[w])@ == x);
                                }
                            }
                        }
                        assert(self.wf(*ctx)) by {
                            assert forall|s3: int, w: int|
                                0 <= s3 < self.entries@.len() && 0 <= w
                                    < self.entries@[s3]@.len() implies {
                                let t = (#[trigger] self.entries@[s3]@[w])@;
                                &&& wf_sub(ctx.rules_seq(), t)
                                &&& root_sym(ctx.rules_seq(), t) == s3
                            } by {
                                if s3 == symi && w == self.entries@[s3]@.len() - 1 {
                                    assert((self.entries@[s3]@[w])@ == sv);
                                    assert(wf_sub(ctx.rules_seq(), sv));
                                } else {
                                    assert(self.entries@[s3]@[w] == pre_store.entries@[s3]@[w]);
                                }
                            }
                            assert forall|s3: int, w1: int, w2: int|
                                0 <= s3 < self.entries@.len() && 0 <= w1 < w2
                                    < self.entries@[s3]@.len() implies (
                            #[trigger] self.entries@[s3]@[w1])@ != (
                            #[trigger] self.entries@[s3]@[w2])@ by {
                                if s3 == symi && w2 == self.entries@[s3]@.len() - 1 {
                                    assert(self.entries@[s3]@[w1] == pre_store.entries@[s3]@[w1]);
                                    assert((pre_store.entries@[s3]@[w1])@ != nodes_view(sub@));
                                    assert((self.entries@[s3]@[w2])@ == sv);
                                } else {
                                    assert(self.entries@[s3]@[w1] == pre_store.entries@[s3]@[w1]);
                                    assert(self.entries@[s3]@[w2] == pre_store.entries@[s3]@[w2]);
                                }
                            }
                        }
                    }
                    assert forall|s2: int| 0 <= s2 < symi implies #[trigger] self.stored(s2)
                        == grown.stored(s2).union(other.stored(s2)) by {
                        assert(self.stored(s2) =~= pre_store.stored(s2));
                    }
                    assert forall|s2: int| symi < s2 < ctx.n_syms() implies #[trigger] self
                        .stored(s2) == grown.stored(s2) by {
                        assert(self.stored(s2) =~= pre_store.stored(s2));
                    }
                }
            }
            proof {
                assert(list_set(other.entries@[sym as int]@, n_list as int) =~= other.stored(
                    sym as int,
                ));
                assert(self.stored(sym as int) =~= grown.stored(sym as int).union(
                    other.stored(sym as int),
                ));
            }
        }
        proof {
            assert forall|s2: int| n_other <= s2 < ctx.n_syms() implies #[trigger] self.stored(
                s2,
            ) == grown.stored(s2).union(other.stored(s2)) by {
                assert(other.stored(s2) =~= Set::<Seq<NodeV>>::empty());
                assert(self.stored(s2) =~= grown.stored(s2).union(other.stored(s2)));
            }
            assert forall|s2: int| !(0 <= s2 < ctx.n_syms()) implies #[trigger] self.stored(s2)
                == orig.stored(s2) by {
                assert(self.stored(s2) =~= orig.stored(s2));
            }
            assert forall|sym: int| 0 <= sym < orig.entries@.len() implies {
                &&& orig.entries@[sym]@.len() <= (#[trigger] self.entries@[sym])@.len()
                &&& forall|j: int|
                    0 <= j < orig.entries@[sym]@.len() ==> self.entries@[sym]@[j]
                        == orig.entries@[sym]@[j]
            } by {
                assert(grown.entries@[sym] == orig.entries@[sym]);
            }
        }
    }

    /// Flattens the store into snapshot lines, one per stored subtree; the
    /// surrounding loop serializes them to the campaign work directory,
    /// atomically replacing the previous snapshot.
    pub fn persist_snapshot(&self) -> (out: Vec<SnapshotEntry>)
        ensures
            forall|sym: int| #[trigger] snapshot_set(out@, sym) == self.stored(sym),
            forall|k: int|
                0 <= k < out@.len() ==> (#[trigger] out@[k]).symbol < self.entries@.len()
                    && self.stored(out@[k].symbol as int).contains(out@[k].tree@),
            out@.map_values(|e: SnapshotEntry| line_of(e)) == spec_flatten(self.entries@),
    {
        let mut out: Vec<SnapshotEntry> = Vec::new();
        let n = self.entries.len();
        proof {
            assert(out@.map_values(|e: SnapshotEntry| line_of(e)) =~= spec_flatten(
                self.entries@.take(0),
            ));
        }
        for sym in 0..n
            invariant
                n == self.entries@.len(),
                out@.map_values(|e: SnapshotEntry| line_of(e)) == spec_flatten(
                    self.entries@.take(sym as int),
                ),
                forall|k: int|
                    0 <= k < out@.len() ==> (#[trigger] out@[k]).symbol < sym && self.stored(
                        out@[k].symbol as int,
                    ).contains(out@[k].tree@),
                forall|s2: int|
                    0 <= s2 < sym ==> #[trigger] snapshot_set(out@, s2) == self.stored(s2),
                forall|s2: int|
                    sym <= s2 < n ==> #[trigger] snapshot_set(out@, s2) =~= Set::<
                        Seq<NodeV>,
                    >::empty(),
        {
            let n_list = self.entries[sym].len();
            let ghost pre_out = out@;
            for j in 0..n_list
                invariant
                    n == self.entries@.len(),
                    sym < n,
                    n_list == self.entries@[sym as int]@.len(),
                    forall|k: int|
                        0 <= k < out@.len() ==> (#[trigger] out@[k]).symbol <= sym && self.stored(
                            out@[k].symbol as int,
                        ).contains(out@[k].tree@),
                    forall|s2: int|
                        0 <= s2 < sym ==> #[trigger] snapshot_set(out@, s2) == self.stored(s2),
                    forall|s2: int|
                        sym < s2 < n ==> #[trigger] snapshot_set(out@, s2) =~= Set::<
                            Seq<NodeV>,
                        >::empty(),
                    snapshot_set(out@, sym as int) =~= list_set(
                        self.entries@[sym as int]@,
                        j as int,
                    ),
                    out@.map_values(|e: SnapshotEntry| line_of(e)) == spec_flatten(
                        self.entries@.take(sym as int),
                    ) + self.entries@[sym as int]@.take(j as int).map(
                        |j2: int, t: Tree| (sym as int, t@),
                    ),
            {
                let ghost pre = out@;
                let src = &self.entries[sym][j];
                let len = src.nodes.len();
                let nodes = crate::tree::copy_range(&src.nodes, 0, len);
                let ghost sv = (self.entries@[sym as int]@[j as int])@;
                proof {
                    assert(nodes_view(nodes@) =~= sv);
                }
                out.push(SnapshotEntry { symbol: sym, tree: Tree { nodes } });
                proof {
                    assert(out@[out@.len() - 1].tree@ == sv);
                    assert(out@.map_values(|e: SnapshotEntry| line_of(e)) =~= pre.map_values(
                        |e: SnapshotEntry| line_of(e),
                    ).push((sym as int, sv)));
                    assert(self.entries@[sym as int]@.take(j + 1).map(
                        |j2: int, t: Tree| (sym as int, t@),
                    ) =~= self.entries@[sym as int]@.take(j as int).map(
                        |j2: int, t: Tree| (sym as int, t@),
                    ).push((sym as int, sv)));
                    assert(self.stored(sym as int).contains(sv)) by {
                        assert((self.entries@[sym as int]@[j as int])@ == sv);
                    }
                    assert forall|s2: int| 0 <= s2 < sym as int implies #[trigger] snapshot_set(
                        out@,
                        s2,
                    ) == self.stored(s2) by {
                        assert(snapshot_set(pre, s2) == self.stored(s2));
                        assert forall|x: Seq<NodeV>| snapshot_set(out@, s2).contains(
                            x,
                        ) implies snapshot_set(pre, s2).contains(x) by {
                            let w = choose|w: int|
                                0 <= w < out@.len() && (#[trigger] out@[w]).symbol == s2
                                    && out@[w].tree@ == x;
                            assert(w < pre.len());
                        }
                        assert forall|x: Seq<NodeV>| snapshot_set(pre, s2).contains(
                            x,
                        ) implies snapshot_set(out@, s2).contains(x) by {
                            let w = choose|w: int|
                                0 <= w < pre.len() && (#[trigger] pre[w]).symbol == s2
                                    && pre[w].tree@ == x;
                            assert(out@[w] == pre[w]);
                        }
                        assert(snapshot_set(out@, s2) =~= snapshot_set(pre, s2));
                    }
                    assert forall|s2: int| 0 <= s2 < n && s2 != sym as int implies snapshot_set(
                        out@,
                        s2,
                    ) =~= snapshot_set(pre, s2) by {
                        assert forall|x: Seq<NodeV>| snapshot_set(out@, s2).contains(
                            x,
                        ) implies snapshot_set(pre, s2).contains(x) by {
                            let w = choose|w: int|
                                0 <= w < out@.len() && (#[trigger] out@[w]).symbol == s2
                                    && out@[w].tree@ == x;
                            assert(w < pre.len());
                        }
                        assert forall|x: Seq<NodeV>| snapshot_set(pre, s2).contains(
                            x,
                        ) implies snapshot_set(out@, s2).contains(x) by {
                            let w = choose|w: int|
                                0 <= w < pre.len() && (#[trigger] pre[w]).symbol == s2
                                    && pre[w].tree@ == x;
                            assert(out@[w] == pre[w]);
                        }
                    }
                    assert(snapshot_set(out@, sym as int) =~= list_set(
                        self.entries@[sym as int]@,
                        j + 1,
                    )) by {
                        assert forall|x: Seq<NodeV>| snapshot_set(out@, sym as int).contains(
                            x,
                        ) implies list_set(self.entries@[sym as int]@, j + 1).contains(x) by {
                            let w = choose|w: int|
                                0 <= w < out@.len() && (#[trigger] out@[w]).symbol == sym as int
                                    && out@[w].tree@ == x;
                            if w < pre.len() {
                                assert(snapshot_set(pre, sym as int).contains(x));
                                let w2 = choose|w2: int|
                                    0 <= w2 < j && (#[trigger] self.entries@[sym as int]@[w2])@
                                        == x;
                            } else {
                                assert(x == sv);
                                assert((self.entries@[sym as int]@[j as int])@ == x);
                            }
                        }
                        assert forall|x: Seq<NodeV>|
                            list_set(self.entries@[sym as int]@, j + 1).contains(
                            x,
                        ) implies snapshot_set(out@, sym as int).contains(x) by {
                            let w = choose|w: int|
                                0 <= w < j + 1 && (#[trigger] self.entries@[sym as int]@[w])@
                                    == x;
                            if w < j {
                                assert(snapshot_set(pre, sym as int).contains(x));
                                let w2 = choose|w2: int|
                                    0 <= w2 < pre.len() && (#[trigger] pre[w2]).symbol
                                        == sym as int && pre[w2].tree@ == x;
                                assert(out@[w2] == pre[w2]);
                            } else {
                                assert(out@[out@.len() - 1].tree@ == x);
                            }
                        }
                    }
                }
            }
            proof {
                assert(snapshot_set(out@, sym as int) =~= self.stored(sym as int)) by {
                    assert(list_set(self.entries@[sym as int]@, n_list as int) =~= self.stored(
                        sym as int,
                    ));
                }
                assert(self.entries@[sym as int]@.take(n_list as int) =~= self.entries@[
                    sym as int
                ]@);
                assert(spec_flatten(self.entries@.take(sym + 1)) == spec_flatten(
                    self.entries@.take(sym as int),
                ) + self.entries@[sym as int]@.map(|j2: int, t: Tree| (sym as int, t@))) by {
                    assert(self.entries@.take(sym + 1).drop_last() =~= self.entries@.take(
                        sym as int,
                    ));
                    assert(self.entries@.take(sym + 1).last() == self.entries@[sym as int]);
                    assert(self.entries@.take(sym + 1).last()@.map(
                        |j2: int, t: Tree| ((self.entries@.take(sym + 1).len() - 1) as int, t@),
                    ) =~= self.entries@[sym as int]@.map(|j2: int, t: Tree| (sym as int, t@)));
                }
            }
        }
        proof {
            assert forall|sym: int| #[trigger] snapshot_set(out@, sym) == self.stored(sym) by {
                if 0 <= sym < n {
                    assert(snapshot_set(out@, sym) =~= self.stored(sym));
                } else {
                    assert(snapshot_set(out@, sym) =~= Set::<Seq<NodeV>>::empty()) by {
                        if exists|x: Seq<NodeV>| snapshot_set(out@, sym).contains(x) {
                            let x = choose|x: Seq<NodeV>| snapshot_set(out@, sym).contains(x);
                            let w = choose|w: int|
                                0 <= w < out@.len() && (#[trigger] out@[w]).symbol == sym
                                    && out@[w].tree@ == x;
                        }
                    }
                    assert(self.stored(sym) =~= Set::<Seq<NodeV>>::empty());
                }
            }
            assert(self.entries@.take(n as int) =~= self.entries@);
        }
        out
    }

    /// Rebuilds a store from snapshot lines, reconstructing the dedup
    /// index as it inserts, so later harvesting continues to deduplicate
    /// correctly; lines for symbols the grammar does not know are dropped.
    /// Restoring from an empty snapshot yields an empty store.
    pub fn restore_snapshot(lines: &Vec<SnapshotEntry>, work_dir: String, ctx: &Context) -> (s:
        ChunkStore)
        requires
            ctx.wf(),
        ensures
            s.work_dir@ == work_dir@,
            forall|sym: int|
                0 <= sym < ctx.n_syms() ==> #[trigger] s.stored(sym) == snapshot_set(
                    lines@,
                    sym,
                ),
            (forall|k: int|
                0 <= k < lines@.len() ==> {
                    let e = #[trigger] lines@[k];
                    &&& wf_sub(ctx.rules_seq(), e.tree@)
                    &&& root_sym(ctx.rules_seq(), e.tree@) == e.symbol as int
                    &&& (e.symbol as int) < ctx.n_syms()
                }) ==> s.wf(*ctx),
    {
        let ghost rv = ctx.rules_seq();
        let ghost all_wf = forall|k: int|
            0 <= k < lines@.len() ==> {
                let e = #[trigger] lines@[k];
                &&& wf_sub(ctx.rules_seq(), e.tree@)
                &&& root_sym(ctx.rules_seq(), e.tree@) == e.symbol as int
                &&& (e.symbol as int) < ctx.n_syms()
            };
        let mut s = ChunkStore::new(work_dir);
        let n_syms = ctx.num_symbols();
        while s.entries.len() < n_syms
            invariant
                n_syms == ctx.n_syms(),
                s.entries@.len() <= ctx.n_syms(),
                s.work_dir@ == work_dir@,
                forall|s2: int|
                    0 <= s2 < s.entries@.len() ==> (#[trigger] s.entries@[s2])@.len() == 0,
            decreases n_syms - s.entries@.len(),
        {
            s.entries.push(Vec::new());
        }
        let n_lines = lines.len();
        for k in 0..n_lines
            invariant
                ctx.wf(),
                rv == ctx.rules_seq(),
                n_lines == lines@.len(),
                n_syms == ctx.n_syms(),
                s.entries@.len() == ctx.n_syms(),
                s.work_dir@ == work_dir@,
                forall|sym: int|
                    0 <= sym < ctx.n_syms() ==> #[trigger] s.stored(sym) == snapshot_set_upto(
                        lines@,
                        sym,
                        k as int,
                    ),
                all_wf == (forall|k2: int|
                    0 <= k2 < lines@.len() ==> {
                        let e = #[trigger] lines@[k2];
                        &&& wf_sub(ctx.rules_seq(), e.tree@)
                        &&& root_sym(ctx.rules_seq(), e.tree@) == e.symbol as int
                        &&& (e.symbol as int) < ctx.n_syms()
                    }),
                all_wf ==> s.wf(*ctx),
        {
            let ghost pre_store = s;
            let e = &lines[k];
            let sym = e.symbol;
            if sym < n_syms {
                let len = e.tree.nodes.len();
                let sub = crate::tree::copy_range(&e.tree.nodes, 0, len);
                let ghost sv = lines@[k as int].tree@;
                proof {
                    assert(nodes_view(sub@) =~= sv);
                }
                let is_dup = list_contains(&s.entries[sym], &sub);
                if !is_dup {
                    s.push_entry(sym, Tree { nodes: sub });
                }
                proof {
                    let symi = sym as int;
                    assert(snapshot_set_upto(lines@, symi, k + 1) =~= snapshot_set_upto(
                        lines@,
                        symi,
                        k as int,
                    ).insert(sv)) by {
                        assert forall|x: Seq<NodeV>|
                            snapshot_set_upto(lines@, symi, k + 1).contains(
                            x,
                        ) implies snapshot_set_upto(lines@, symi, k as int).insert(sv).contains(
                            x,
                        ) by {
                            let w = choose|w: int|
                                0 <= w < k + 1 && (#[trigger] lines@[w]).symbol == symi
                                    && lines@[w].tree@ == x;
                            if w < k {
                                assert(snapshot_set_upto(lines@, symi, k as int).contains(x));
                            }
                        }
                        assert(snapshot_set_upto(lines@, symi, k + 1).contains(sv));
                    }
                    assert forall|s2: int| 0 <= s2 < ctx.n_syms() && s2 != symi implies
                        snapshot_set_upto(lines@, s2, k + 1) =~= snapshot_set_upto(
                        lines@,
                        s2,
                        k as int,
                    ) by {
                        assert forall|x: Seq<NodeV>|
                            snapshot_set_upto(lines@, s2, k + 1).contains(
                            x,
                        ) implies snapshot_set_upto(lines@, s2, k as int).contains(x) by {
                            let w = choose|w: int|
                                0 <= w < k + 1 && (#[trigger] lines@[w]).symbol == s2
                                    && lines@[w].tree@ == x;
                            assert(w < k);
                        }
                    }
                    if is_dup {
                        assert(pre_store.stored(symi).contains(sv)) by {
                            let w = choose|w: int|
                                0 <= w < pre_store.entries@[symi]@.len() && (
                                #[trigger] pre_store.entries@[symi]@[w])@ == nodes_view(sub@);
                        }
                        assert forall|s2: int| 0 <= s2 < ctx.n_syms() implies #[trigger] s.stored(
                            s2,
                        ) =~= snapshot_set_upto(lines@, s2, k + 1) by {}
                    } else {
                        assert forall|s2: int| 0 <= s2 < ctx.n_syms() implies #[trigger] s.stored(
                            s2,
                        ) =~= snapshot_set_upto(lines@, s2, k + 1) by {
                            if s2 == symi {
                                assert forall|x: Seq<NodeV>| s.stored(s2).contains(
                                    x,
                                ) implies snapshot_set_upto(lines@, s2, k + 1).contains(x) by {
                                    let w = choose|w: int|
                                        0 <= w < s.entries@[s2]@.len() && (
                                        #[trigger] s.entries@[s2]@[w])@ == x;
                                    if w < s.entries@[s2]@.len() - 1 {
                                        assert(pre_store.stored(s2).contains(x));
                                    } else {
                                        assert(x == sv);
                                    }
                                }
                                assert forall|x: Seq<NodeV>|
                                    snapshot_set_upto(lines@, s2, k + 1).contains(
                                    x,
                                ) implies s.stored(s2).contains(x) by {
                                    if x == sv {
                                        let w = s.entries@[s2]@.len() - 1;
                                        assert((s.entries@[s2]@[w])@ == x);
                                    } else {
                                        assert(snapshot_set_upto(lines@, s2, k as int).contains(
                                            x,
                                        ));
                                        assert(pre_store.stored(s2).contains(x));
                                        let w = choose|w: int|
                                            0 <= w < pre_store.entries@[s2]@.len() && (
                                            #[trigger] pre_store.entries@[s2]@[w])@ == x;
                                        assert((s.entries@[s2]@[w])@ == x);
                                    }
                                }
                            } else {
                                assert(s.stored(s2) =~= pre_store.stored(s2));
                            }
                        }
                        if all_wf {
                            assert(s.wf(*ctx)) by {
                                assert forall|s3: int, w: int|
                                    0 <= s3 < s.entries@.len() && 0 <= w
                                        < s.entries@[s3]@.len() implies {
                                    let t = (#[trigger] s.entries@[s3]@[w])@;
                                    &&& wf_sub(ctx.rules_seq(), t)
                                    &&& root_sym(ctx.rules_seq(), t) == s3
                                } by {
                                    if s3 == symi && w == s.entries@[s3]@.len() - 1 {
                                        assert((s.entries@[s3]@[w])@ == sv);
                                        assert(wf_sub(ctx.rules_seq(), lines@[k as int].tree@));
                                    } else {
                                        assert(s.entries@[s3]@[w] == pre_store.entries@[s3]@[w]);
                                    }
                                }
                                assert forall|s3: int, w1: int, w2: int|
                                    0 <= s3 < s.entries@.len() && 0 <= w1 < w2
                                        < s.entries@[s3]@.len() implies (
                                #[trigger] s.entries@[s3]@[w1])@ != (
                                #[trigger] s.entries@[s3]@[w2])@ by {
                                    if s3 == symi && w2 == s.entries@[s3]@.len() - 1 {
                                        assert(s.entries@[s3]@[w1] == pre_store.entries@[s3]@[w1]);
                                        assert((pre_store.entries@[s3]@[w1])@ != nodes_view(
                                            sub@,
                                        ));
                                        assert((s.entries@[s3]@[w2])@ == sv);
                                    } else {
                                        assert(s.entries@[s3]@[w1] == pre_store.entries@[s3]@[w1]);
                                        assert(s.entries@[s3]@[w2] == pre_store.entries@[s3]@[w2]);
                                    }
                                }
                            }
                        }
                    }
                }
            } else {
                proof {
                    assert(!all_wf);
                    assert forall|s2: int| 0 <= s2 < ctx.n_syms() implies #[trigger] s.stored(s2)
                        =~= snapshot_set_upto(lines@, s2, k + 1) by {
                        assert forall|x: Seq<NodeV>|
                            snapshot_set_upto(lines@, s2, k + 1).contains(
                            x,
                        ) implies snapshot_set_upto(lines@, s2, k as int).contains(x) by {
                            let w = choose|w: int|
                                0 <= w < k + 1 && (#[trigger] lines@[w]).symbol == s2
                                    && lines@[w].tree@ == x;
                            assert(w < k);
                        }
                    }
                }
            }
        }
        proof {
            assert forall|sym: int| 0 <= sym < ctx.n_syms() implies #[trigger] s.stored(sym)
                == snapshot_set(lines@, sym) by {
                assert(snapshot_set_upto(lines@, sym, n_lines as int) =~= snapshot_set(
                    lines@,
                    sym,
                ));
                assert(s.stored(sym) =~= snapshot_set(lines@, sym));
            }
        }
        s
    }
}

/// Law: harvesting is idempotent. `add_tree` turns each per-symbol set `S`
/// into `S ∪ subs`, so adding the same tree a second time leaves every
/// collection, and with it the dedup index, unchanged.
pub proof fn lemma_add_tree_idempotent(
    rules: Seq<RuleV>,
    t: Seq<NodeV>,
    base: Set<Seq<NodeV>>,
    sym: int,
)
    ensures
        base.union(subs_of(rules, t, sym)).union(subs_of(rules, t, sym)) == base.union(
            subs_of(rules, t, sym),
        ),
{
    assert(base.union(subs_of(rules, t, sym)).union(subs_of(rules, t, sym)) =~= base.union(
        subs_of(rules, t, sym),
    ));
}

/// Law: harvesting commutes. Two `add_tree` calls reach the same
/// per-symbol sets in either order, which is what makes additive merging
/// of independently grown stores order-independent.
pub proof fn lemma_add_tree_commutes(
    rules: Seq<RuleV>,
    t1: Seq<NodeV>,
    t2: Seq<NodeV>,
    base: Set<Seq<NodeV>>,
    sym: int,
)
    ensures
        base.union(subs_of(rules, t1, sym)).union(subs_of(rules, t2, sym)) == base.union(
            subs_of(rules, t2, sym),
        ).union(subs_of(rules, t1, sym)),
{
    assert(base.union(subs_of(rules, t1, sym)).union(subs_of(rules, t2, sym)) =~= base.union(
        subs_of(rules, t2, sym),
    ).union(subs_of(rules, t1, sym)));
}

/// Law: a deduplicated store cannot regrow the same content. When one
/// store extends another only by appending (as `add_tree` and `merge`
/// ensure), keeps its collections duplicate-free (as the store invariant
/// demands), and ends with the same stored set for a symbol, then that
/// symbol's concrete collection is exactly unchanged — so re-harvesting an
/// already-seen tree leaves every collection, and with it the dedup index,
/// untouched.
pub proof fn lemma_dedup_no_regrowth(a: ChunkStore, b: ChunkStore, sym: int)
    requires
        0 <= sym < a.entries@.len(),
        a.entries@.len() <= b.entries@.len(),
        a.entries@[sym]@.len() <= b.entries@[sym]@.len(),
        forall|j: int|
            0 <= j < a.entries@[sym]@.len() ==> #[trigger] b.entries@[sym]@[j]
                == a.entries@[sym]@[j],
        forall|j1: int, j2: int|
            0 <= j1 < j2 < b.entries@[sym]@.len() ==> (#[trigger] b.entries@[sym]@[j1])@ != (
            #[trigger] b.entries@[sym]@[j2])@,
        b.stored(sym) == a.stored(sym),
    ensures
        b.entries@[sym]@ == a.entries@[sym]@,
{
    if b.entries@[sym]@.len() > a.entries@[sym]@.len() {
        let w = a.entries@[sym]@.len() as int;
        let x = (b.entries@[sym]@[w])@;
        assert(b.stored(sym).contains(x));
        assert(a.stored(sym).contains(x));
        let j = choose|j: int|
            0 <= j < a.entries@[sym]@.len() && (#[trigger] a.entries@[sym]@[j])@ == x;
        assert((b.entries@[sym]@[j])@ == x);
        assert(false);
    }
    assert(b.entries@[sym]@ =~= a.entries@[sym]@);
}

/// Law: merging is commutative at the level of stored sets: a merge only
/// forms the union of the two stores' per-symbol sets.
pub proof fn lemma_merge_commutes(a: Set<Seq<NodeV>>, b: Set<Seq<NodeV>>)
    ensures
        a.union(b) == b.union(a),
{
    assert(a.union(b) =~= b.union(a));
}

/// Law: a persisted snapshot restores to the same store. `persist_snapshot`
/// emits lines whose per-symbol sets equal the store's, and
/// `restore_snapshot` rebuilds exactly the lines' per-symbol sets, so the
/// round trip preserves every per-symbol set of stored subtrees.
pub proof fn lemma_persist_restore_roundtrip(
    before: ChunkStore,
    lines: Seq<SnapshotEntry>,
    after: ChunkStore,
    n_syms: int,
)
    requires
        forall|sym: int| #[trigger] snapshot_set(lines, sym) == before.stored(sym),
        forall|sym: int|
            0 <= sym < n_syms ==> #[trigger] after.stored(sym) == snapshot_set(lines, sym),
    ensures
        forall|sym: int| 0 <= sym < n_syms ==> #[trigger] after.stored(sym) == before.stored(sym),
{
}

} // verus!
