//! Derivation trees: one rule-application or terminal-leaf node per index,
//! stored preorder in a flat arena. Every subtree occupies a contiguous
//! index range, so extraction and splicing are slice operations.
//!
//! A node records either a terminal payload (a leaf) or the rule it applies
//! together with the node count of its whole subtree. The well-formedness
//! predicate below is the slot-matching invariant: the immediate children of
//! every rule node match, in order, the slot sequence of its rule.
use vstd::prelude::*;
use crate::grammar::{Context, RuleV, Slot, SlotV, SIZE_CAP, rule_wf, slot_wf, slot_cost};
use crate::SymbolMismatchError;

verus! {

/// One arena node of a derivation tree.
#[derive(Debug)]
pub enum Node {
    /// A terminal leaf holding its payload bytes.
    Leaf {
        /// The concrete bytes this leaf contributes to the unparsed output.
        bytes: Vec<u8>,
    },
    /// An application of rule `rule`, whose subtree (itself included) spans
    /// `len` consecutive nodes.
    Apply {
        /// Id of the applied rule in the context's rule table.
        rule: usize,
        /// Node count of the subtree rooted here.
        len: usize,
    },
}

/// Mathematical image of a [`Node`].
pub enum NodeV {
    /// A terminal leaf with its payload.
    Leaf {
        /// The payload bytes.
        bytes: Seq<u8>,
    },
    /// A rule application spanning `len` nodes.
    Apply {
        /// Id of the applied rule.
        rule: int,
        /// Node count of the subtree rooted here.
        len: int,
    },
}

impl View for Node {
    type V = NodeV;

    open spec fn view(&self) -> NodeV {
        match self {
            Node::Leaf { bytes } => NodeV::Leaf { bytes: bytes@ },
            Node::Apply { rule, len } => NodeV::Apply { rule: *rule as int, len: *len as int },
        }
    }
}

/// A derivation tree: its nodes in preorder.
#[derive(Debug)]
pub struct Tree {
    /// The arena, preorder; index 0 is the root.
    pub nodes: Vec<Node>,
}

impl View for Tree {
    type V = Seq<NodeV>;

    open spec fn view(&self) -> Seq<NodeV> {
        self.nodes@.map_values(|n: Node| n@)
    }
}

/// Node count of the subtree rooted at a node: 1 for a leaf.
pub open spec fn n_len(n: NodeV) -> int {
    match n {
        NodeV::Leaf { .. } => 1,
        NodeV::Apply { len, .. } => len,
    }
}

/// Whether the root node of a subtree fills a slot: a leaf fills a literal
/// slot, a rule node fills a nonterminal slot for the symbol its rule
/// produces.
pub open spec fn fills_slot(rules: Seq<RuleV>, n: NodeV, s: SlotV) -> bool {
    match (n, s) {
        (NodeV::Leaf { .. }, SlotV::Literal(_)) => true,
        (NodeV::Apply { rule, .. }, SlotV::NonTerm(m)) => {
            &&& 0 <= rule < rules.len()
            &&& rules[rule].nonterm == m
        },
        _ => false,
    }
}

/// Whether two nodes are root-compatible for splicing: both leaves, or both
/// rule applications producing the same symbol.
pub open spec fn roots_compatible(rules: Seq<RuleV>, a: NodeV, b: NodeV) -> bool {
    match (a, b) {
        (NodeV::Leaf { .. }, NodeV::Leaf { .. }) => true,
        (NodeV::Apply { rule: ra, .. }, NodeV::Apply { rule: rb, .. }) => {
            &&& 0 <= ra < rules.len()
            &&& 0 <= rb < rules.len()
            &&& rules[ra].nonterm == rules[rb].nonterm
        },
        _ => false,
    }
}

/// The slot-matching invariant for one whole subtree slice `s`: `s` is
/// exactly one well-formed subtree over the rule table `rules`.
pub open spec fn wf_sub(rules: Seq<RuleV>, s: Seq<NodeV>) -> bool
    decreases s.len(), 0int,
{
    &&& s.len() >= 1
    &&& match s[0] {
        NodeV::Leaf { .. } => s.len() == 1,
        NodeV::Apply { rule, len } => {
            &&& 0 <= rule < rules.len()
            &&& len == s.len()
            &&& wf_kids(rules, s.subrange(1, s.len() as int), rules[rule].slots)
        },
    }
}

/// The children slice `c` is exactly the concatenation of one well-formed
/// subtree per slot, each filling its slot in order.
pub open spec fn wf_kids(rules: Seq<RuleV>, c: Seq<NodeV>, slots: Seq<SlotV>) -> bool
    decreases c.len(), 1int + slots.len(),
{
    if slots.len() == 0 {
        c.len() == 0
    } else {
        &&& c.len() >= 1
        &&& 1 <= n_len(c[0]) <= c.len()
        &&& wf_sub(rules, c.subrange(0, n_len(c[0])))
        &&& fills_slot(rules, c[0], slots[0])
        &&& wf_kids(rules, c.subrange(n_len(c[0]), c.len() as int), slots.drop_first())
    }
}

/// Whether a subtree slice carries faithful terminal payloads: every leaf
/// that fills a literal slot holds exactly that slot's bytes. Freshly
/// generated trees are faithful and symbol splices preserve faithfulness;
/// terminal-byte mutation deliberately gives it up.
pub open spec fn lit_sub(rules: Seq<RuleV>, s: Seq<NodeV>) -> bool
    decreases s.len(), 0int,
{
    &&& s.len() >= 1
    &&& match s[0] {
        NodeV::Leaf { .. } => s.len() == 1,
        NodeV::Apply { rule, len } => {
            &&& 0 <= rule < rules.len()
            &&& len == s.len()
            &&& lit_kids(rules, s.subrange(1, s.len() as int), rules[rule].slots)
        },
    }
}

/// Children-slice version of [`lit_sub`]: each child is faithful, and a
/// leaf child filling a literal slot carries exactly the slot's bytes.
pub open spec fn lit_kids(rules: Seq<RuleV>, c: Seq<NodeV>, slots: Seq<SlotV>) -> bool
    decreases c.len(), 1int + slots.len(),
{
    if slots.len() == 0 {
        c.len() == 0
    } else {
        &&& c.len() >= 1
        &&& 1 <= n_len(c[0]) <= c.len()
        &&& lit_sub(rules, c.subrange(0, n_len(c[0])))
        &&& (match (c[0], slots[0]) {
            (NodeV::Leaf { bytes }, SlotV::Literal(lit)) => bytes == lit,
            _ => true,
        })
        &&& lit_kids(rules, c.subrange(n_len(c[0]), c.len() as int), slots.drop_first())
    }
}

/// The symbol at the root of a well-formed subtree slice (meaningful only
/// for rule nodes).
pub open spec fn root_sym(rules: Seq<RuleV>, s: Seq<NodeV>) -> int {
    match s[0] {
        NodeV::Leaf { .. } => -1,
        NodeV::Apply { rule, .. } => rules[rule].nonterm,
    }
}

/// The unparsed output of a node slice: the terminal payloads of its leaves,
/// concatenated in index (= depth-first, in-order) order.
pub open spec fn spec_unparse(s: Seq<NodeV>) -> Seq<u8>
    decreases s.len(),
{
    if s.len() == 0 {
        Seq::empty()
    } else {
        spec_unparse(s.drop_last()) + match s.last() {
            NodeV::Leaf { bytes } => bytes,
            NodeV::Apply { .. } => Seq::empty(),
        }
    }
}

/// Appending one further well-formed subtree that fills one further slot
/// keeps a children slice well formed.
pub proof fn lemma_wf_kids_snoc(
    rules: Seq<RuleV>,
    c: Seq<NodeV>,
    slots: Seq<SlotV>,
    sub: Seq<NodeV>,
    slot: SlotV,
)
    requires
        wf_kids(rules, c, slots),
        wf_sub(rules, sub),
        fills_slot(rules, sub[0], slot),
    ensures
        wf_kids(rules, c + sub, slots.push(slot)),
    decreases slots.len(),
{
    if slots.len() == 0 {
        assert(c + sub =~= sub);
        assert(n_len(sub[0]) == sub.len());
        assert((c + sub).subrange(0, n_len(sub[0])) =~= sub);
        assert((c + sub).subrange(n_len(sub[0]), (c + sub).len() as int) =~= Seq::<
            NodeV,
        >::empty());
        assert(slots.push(slot).drop_first() =~= Seq::<SlotV>::empty());
        assert(wf_kids(rules, (c + sub).subrange(n_len(sub[0]), (c + sub).len() as int),
            slots.push(slot).drop_first()));
    } else {
        let l0 = n_len(c[0]);
        let rest = c.subrange(l0, c.len() as int);
        lemma_wf_kids_snoc(rules, rest, slots.drop_first(), sub, slot);
        assert((c + sub)[0] == c[0]);
        assert((c + sub).subrange(0, l0) =~= c.subrange(0, l0));
        assert((c + sub).subrange(l0, (c + sub).len() as int) =~= rest + sub);
        assert(slots.push(slot)[0] == slots[0]);
        assert(slots.push(slot).drop_first() =~= slots.drop_first().push(slot));
    }
}

/// Appending one further faithful subtree that meets its slot's byte
/// condition keeps a children slice faithful.
pub proof fn lemma_lit_kids_snoc(
    rules: Seq<RuleV>,
    c: Seq<NodeV>,
    slots: Seq<SlotV>,
    sub: Seq<NodeV>,
    slot: SlotV,
)
    requires
        lit_kids(rules, c, slots),
        lit_sub(rules, sub),
        (match (sub[0], slot) {
            (NodeV::Leaf { bytes }, SlotV::Literal(lit)) => bytes == lit,
            _ => true,
        }),
    ensures
        lit_kids(rules, c + sub, slots.push(slot)),
    decreases slots.len(),
{
    if slots.len() == 0 {
        assert(c + sub =~= sub);
        assert(n_len(sub[0]) == sub.len());
        assert((c + sub).subrange(0, n_len(sub[0])) =~= sub);
        assert((c + sub).subrange(n_len(sub[0]), (c + sub).len() as int) =~= Seq::<
            NodeV,
        >::empty());
        assert(slots.push(slot).drop_first() =~= Seq::<SlotV>::empty());
        assert(lit_kids(rules, (c + sub).subrange(n_len(sub[0]), (c + sub).len() as int),
            slots.push(slot).drop_first()));
    } else {
        let l0 = n_len(c[0]);
        let rest = c.subrange(l0, c.len() as int);
        lemma_lit_kids_snoc(rules, rest, slots.drop_first(), sub, slot);
        assert((c + sub)[0] == c[0]);
        assert((c + sub).subrange(0, l0) =~= c.subrange(0, l0));
        assert((c + sub).subrange(l0, (c + sub).len() as int) =~= rest + sub);
        assert(slots.push(slot)[0] == slots[0]);
        assert(slots.push(slot).drop_first() =~= slots.drop_first().push(slot));
    }
}

/// Every index inside a well-formed subtree roots a well-formed subtree of
/// its own, spanning a range that stays inside the enclosing slice.
pub proof fn lemma_node_at(rules: Seq<RuleV>, s: Seq<NodeV>, i: int)
    requires
        wf_sub(rules, s),
        0 <= i < s.len(),
    ensures
        1 <= n_len(s[i]),
        i + n_len(s[i]) <= s.len(),
        wf_sub(rules, s.subrange(i, i + n_len(s[i]))),
    decreases s.len(), 0int,
{
    if i == 0 {
        assert(n_len(s[0]) == s.len());
        assert(s.subrange(0, s.len() as int) =~= s);
    } else {
        let kids = s.subrange(1, s.len() as int);
        lemma_kids_node_at(rules, kids, rules[s[0]->Apply_rule].slots, i - 1);
        assert(kids.subrange(i - 1, i - 1 + n_len(kids[i - 1])) =~= s.subrange(
            i,
            i + n_len(s[i]),
        ));
    }
}

/// Children-slice version of [`lemma_node_at`].
pub proof fn lemma_kids_node_at(rules: Seq<RuleV>, c: Seq<NodeV>, slots: Seq<SlotV>, i: int)
    requires
        wf_kids(rules, c, slots),
        0 <= i < c.len(),
    ensures
        1 <= n_len(c[i]),
        i + n_len(c[i]) <= c.len(),
        wf_sub(rules, c.subrange(i, i + n_len(c[i]))),
    decreases c.len(), 1int + slots.len(),
{
    let l0 = n_len(c[0]);
    let c0 = c.subrange(0, l0);
    if i < l0 {
        lemma_node_at(rules, c0, i);
        assert(c0.subrange(i, i + n_len(c0[i])) =~= c.subrange(i, i + n_len(c[i])));
    } else {
        let rest = c.subrange(l0, c.len() as int);
        lemma_kids_node_at(rules, rest, slots.drop_first(), i - l0);
        assert(rest.subrange(i - l0, i - l0 + n_len(rest[i - l0])) =~= c.subrange(
            i,
            i + n_len(c[i]),
        ));
    }
}

/// The mathematical image of a node vector.
pub open spec fn nodes_view(s: Seq<Node>) -> Seq<NodeV> {
    s.map_values(|n: Node| n@)
}

/// A small deterministic generator of choice words, seeded by the caller;
/// generation and mutation draw all their randomness from it.
#[derive(Debug)]
pub struct Rng {
    /// Current generator state; any value is a valid state.
    pub state: u64,
}

impl Rng {
    /// Creates a generator from a seed.
    pub fn new(seed: u64) -> Rng {
        Rng { state: if seed == 0 { 0x9e3779b97f4a7c15u64 } else { seed } }
    }

    /// Advances the state and returns the next word.
    pub fn next_word(&mut self) -> u64 {
        let mut x = self.state;
        x = x ^ (x << 13);
        x = x ^ (x >> 7);
        x = x ^ (x << 17);
        self.state = x;
        x
    }

    /// A choice below `n`.
    pub fn below(&mut self, n: usize) -> (r: usize)
        requires
            n >= 1,
        ensures
            r < n,
    {
        let w = self.next_word();
        let r = w % (n as u64);
        proof {
            assert(r < n as u64);
        }
        r as usize
    }
}

/// Copies a byte vector.
fn copy_bytes(v: &Vec<u8>) -> (out: Vec<u8>)
    ensures
        out@ == v@,
{
    let mut out: Vec<u8> = Vec::new();
    let n = v.len();
    for i in 0..n
        invariant
            n == v@.len(),
            out@ == v@.take(i as int),
    {
        out.push(v[i]);
        proof {
            assert(v@.take(i + 1) =~= v@.take(i as int).push(v@[i as int]));
        }
    }
    proof {
        assert(v@.take(n as int) =~= v@);
    }
    out
}

/// Copies one node.
fn copy_node(n: &Node) -> (out: Node)
    ensures
        out@ == n@,
{
    match n {
        Node::Leaf { bytes } => Node::Leaf { bytes: copy_bytes(bytes) },
        Node::Apply { rule, len } => Node::Apply { rule: *rule, len: *len },
    }
}

/// Copies the node range `[from, to)` out of a vector.
pub(crate) fn copy_range(v: &Vec<Node>, from: usize, to: usize) -> (out: Vec<Node>)
    requires
        from <= to,
        to <= v@.len(),
    ensures
        nodes_view(out@) == nodes_view(v@).subrange(from as int, to as int),
{
    let mut out: Vec<Node> = Vec::new();
    for i in from..to
        invariant
            from <= i <= to,
            to <= v@.len(),
            nodes_view(out@) =~= nodes_view(v@).subrange(from as int, i as int),
    {
        let ghost pre = nodes_view(out@);
        let node = copy_node(&v[i]);
        let ghost nv = node@;
        out.push(node);
        proof {
            assert(nodes_view(out@) =~= pre.push(nv));
            assert(nv == nodes_view(v@)[i as int]);
            assert(nodes_view(v@).subrange(from as int, i + 1) =~= nodes_view(v@).subrange(
                from as int,
                i as int,
            ).push(nodes_view(v@)[i as int]));
        }
    }
    out
}

/// Builds the minimum-size derivation tree for `sym`: applies the recorded
/// minimum rule and recurses, which terminates because every nonterminal
/// slot of that rule has a strictly smaller minimum size.
fn gen_min(ctx: &Context, sym: usize) -> (out: Vec<Node>)
    requires
        ctx.wf(),
        (sym as int) < ctx.n_syms(),
    ensures
        wf_sub(ctx.rules_seq(), nodes_view(out@)),
        lit_sub(ctx.rules_seq(), nodes_view(out@)),
        nodes_view(out@).len() == ctx.sizes()[sym as int],
        root_sym(ctx.rules_seq(), nodes_view(out@)) == sym as int,
    decreases ctx.sizes()[sym as int],
{
    let ghost rv = ctx.rules_seq();
    let ghost iz = ctx.sizes();
    let r = ctx.min_rule[sym];
    let rule = &ctx.rules[r];
    proof {
        let mr = ctx.min_rule@[sym as int] as int;
        assert(rule_wf(rv[r as int], ctx.n_syms()));
        assert forall|k2: int| 0 <= k2 < rv[r as int].slots.len() implies slot_cost(
            #[trigger] rv[r as int].slots[k2],
            iz,
        ) >= 0 by {
            assert(slot_wf(rv[r as int].slots[k2], ctx.n_syms()));
        }
        crate::grammar::lemma_rule_cost_sum(rv[r as int].slots, iz);
        assert(1 + crate::grammar::slot_sum(rv[r as int].slots, iz) == iz[sym as int]);
    }
    let n_slots = rule.slots.len();
    let mut kids: Vec<Node> = Vec::new();
    for k in 0..n_slots
        invariant
            ctx.wf(),
            (sym as int) < ctx.n_syms(),
            rv == ctx.rules_seq(),
            iz == ctx.sizes(),
            r == ctx.min_rule@[sym as int],
            r < ctx.rules@.len(),
            rule == ctx.rules@[r as int],
            n_slots == rule.slots@.len(),
            rv[r as int].slots.len() == n_slots,
            forall|k2: int|
                0 <= k2 < rv[r as int].slots.len() ==> slot_cost(
                    #[trigger] rv[r as int].slots[k2],
                    iz,
                ) >= 0,
            1 + crate::grammar::slot_sum(rv[r as int].slots, iz) == iz[sym as int],
            wf_kids(rv, nodes_view(kids@), rv[r as int].slots.take(k as int)),
            lit_kids(rv, nodes_view(kids@), rv[r as int].slots.take(k as int)),
            nodes_view(kids@).len() == crate::grammar::slot_sum(
                rv[r as int].slots.take(k as int),
                iz,
            ),
        decreases ctx.sizes()[sym as int], n_slots - k,
    {
        let ghost pre = nodes_view(kids@);
        let ghost slots = rv[r as int].slots;
        proof {
            assert(slots[k as int] == rule.slots@[k as int]@);
            assert(slots.take(k + 1).drop_last() =~= slots.take(k as int));
            assert(slots.take(k + 1).last() == slots[k as int]);
            crate::grammar::lemma_slot_sum_member(slots, iz, k as int);
        }
        match &rule.slots[k] {
            Slot::Literal(b) => {
                let bytes = copy_bytes(b);
                kids.push(Node::Leaf { bytes });
                proof {
                    let leaf = NodeV::Leaf { bytes: b@ };
                    assert(wf_sub(rv, seq![leaf]));
                    assert(lit_sub(rv, seq![leaf]));
                    lemma_wf_kids_snoc(rv, pre, slots.take(k as int), seq![leaf], slots[k as int]);
                    lemma_lit_kids_snoc(rv, pre, slots.take(k as int), seq![leaf], slots[k as int]);
                    assert(nodes_view(kids@) =~= pre + seq![leaf]);
                    assert(slots.take(k + 1) =~= slots.take(k as int).push(slots[k as int]));
                }
            },
            Slot::NonTerm(m) => {
                proof {
                    assert(slot_cost(slots[k as int], iz) == iz[*m as int]);
                    assert(iz[*m as int] < iz[sym as int]);
                }
                let mut sub = gen_min(ctx, *m);
                let ghost sub_v = nodes_view(sub@);
                kids.append(&mut sub);
                proof {
                    assert(fills_slot(rv, sub_v[0], slots[k as int]));
                    lemma_wf_kids_snoc(rv, pre, slots.take(k as int), sub_v, slots[k as int]);
                    lemma_lit_kids_snoc(rv, pre, slots.take(k as int), sub_v, slots[k as int]);
                    assert(nodes_view(kids@) =~= pre + sub_v);
                    assert(slots.take(k + 1) =~= slots.take(k as int).push(slots[k as int]));
                }
            },
        }
    }
    proof {
        assert(rv[r as int].slots.take(n_slots as int) =~= rv[r as int].slots);
    }
    let ghost kids_v = nodes_view(kids@);
    let total = kids.len() + 1;
    let mut out: Vec<Node> = Vec::new();
    out.push(Node::Apply { rule: r, len: total });
    out.append(&mut kids);
    proof {
        let ov = nodes_view(out@);
        assert(ov[0] == (NodeV::Apply { rule: r as int, len: total as int }));
        assert(ov.subrange(1, ov.len() as int) =~= kids_v);
    }
    out
}

/// Builds a derivation tree for `sym` within `budget` nodes: draws a rule
/// among those whose minimum cost fits the budget (falling back to the
/// minimum-size derivation when none fits), then recurses into each
/// nonterminal slot with that slot's minimum size plus a proportional share
/// of the leftover budget.
fn gen_sub(ctx: &Context, sym: usize, budget: usize, rng: &mut Rng) -> (out: Vec<Node>)
    requires
        ctx.wf(),
        (sym as int) < ctx.n_syms(),
        ctx.sizes()[sym as int] <= budget,
    ensures
        wf_sub(ctx.rules_seq(), nodes_view(out@)),
        lit_sub(ctx.rules_seq(), nodes_view(out@)),
        root_sym(ctx.rules_seq(), nodes_view(out@)) == sym as int,
        ctx.sizes()[sym as int] <= nodes_view(out@).len() <= budget,
    decreases budget,
{
    let ghost rv = ctx.rules_seq();
    let ghost iz = ctx.sizes();
    // Rules of this symbol whose minimum cost fits the budget. Rules whose
    // minimum cost saturates the size bound can never finish small and are
    // never drawn.
    let ro_len = ctx.rules_of[sym].len();
    let mut fits: Vec<usize> = Vec::new();
    for j in 0..ro_len
        invariant
            ctx.wf(),
            (sym as int) < ctx.n_syms(),
            rv == ctx.rules_seq(),
            iz == ctx.sizes(),
            ro_len == ctx.rules_of@[sym as int]@.len(),
            forall|q: int|
                0 <= q < fits@.len() ==> {
                    let id = #[trigger] fits@[q] as int;
                    &&& 0 <= id < rv.len()
                    &&& rv[id].nonterm == sym as int
                    &&& crate::grammar::rule_cost(rv[id].slots, iz) <= budget
                    &&& crate::grammar::rule_cost(rv[id].slots, iz) < SIZE_CAP
                },
    {
        let id = ctx.rules_of[sym][j];
        proof {
            assert forall|i: int| 0 <= i < ctx.min_size@.len() implies 1 <= #[trigger] ctx
                .min_size@[i] <= SIZE_CAP by {
                assert(ctx.sizes()[i] == ctx.min_size@[i] as int);
            }
            assert(rule_wf(rv[id as int], ctx.n_syms()));
        }
        let c = crate::grammar::cost_of(&ctx.rules, id, &ctx.min_size);
        if c <= budget && c < SIZE_CAP {
            fits.push(id);
        }
    }
    if fits.len() == 0 {
        return gen_min(ctx, sym);
    }
    let pick = rng.below(fits.len());
    let r = fits[pick];
    let rule = &ctx.rules[r];
    proof {
        assert forall|i: int| 0 <= i < ctx.min_size@.len() implies 1 <= #[trigger] ctx
            .min_size@[i] <= SIZE_CAP by {
            assert(ctx.sizes()[i] == ctx.min_size@[i] as int);
        }
        assert(rule_wf(rv[r as int], ctx.n_syms()));
    }
    let c = crate::grammar::cost_of(&ctx.rules, r, &ctx.min_size);
    proof {
        assert(rule_wf(rv[r as int], ctx.n_syms()));
        assert forall|k2: int| 0 <= k2 < rv[r as int].slots.len() implies slot_cost(
            #[trigger] rv[r as int].slots[k2],
            iz,
        ) >= 0 by {
            assert(slot_wf(rv[r as int].slots[k2], ctx.n_syms()));
        }
        crate::grammar::lemma_rule_cost_sum(rv[r as int].slots, iz);
        assert(1 + crate::grammar::slot_sum(rv[r as int].slots, iz) == c);
    }
    // Count nonterminal slots to split the leftover budget evenly.
    let n_slots = rule.slots.len();
    let mut ntc: usize = 0;
    for k in 0..n_slots
        invariant
            rule == ctx.rules@[r as int],
            n_slots == rule.slots@.len(),
            ntc <= k,
    {
        match &rule.slots[k] {
            Slot::Literal(_) => {},
            Slot::NonTerm(_) => {
                ntc = ntc + 1;
            },
        }
    }
    let extra = budget - c;
    let share = if ntc >= 1 {
        extra / ntc
    } else {
        0
    };
    let mut rem_extra = extra;
    let mut kids: Vec<Node> = Vec::new();
    for k in 0..n_slots
        invariant
            ctx.wf(),
            (sym as int) < ctx.n_syms(),
            rv == ctx.rules_seq(),
            iz == ctx.sizes(),
            r < ctx.rules@.len(),
            rule == ctx.rules@[r as int],
            n_slots == rule.slots@.len(),
            rv[r as int].slots.len() == n_slots,
            rv[r as int].nonterm == sym as int,
            forall|k2: int|
                0 <= k2 < rv[r as int].slots.len() ==> slot_cost(
                    #[trigger] rv[r as int].slots[k2],
                    iz,
                ) >= 0,
            1 + crate::grammar::slot_sum(rv[r as int].slots, iz) == c,
            c <= budget,
            c < SIZE_CAP,
            rem_extra <= extra,
            extra == budget - c,
            wf_kids(rv, nodes_view(kids@), rv[r as int].slots.take(k as int)),
            lit_kids(rv, nodes_view(kids@), rv[r as int].slots.take(k as int)),
            nodes_view(kids@).len() >= crate::grammar::slot_sum(
                rv[r as int].slots.take(k as int),
                iz,
            ),
            nodes_view(kids@).len() <= crate::grammar::slot_sum(
                rv[r as int].slots.take(k as int),
                iz,
            ) + (extra - rem_extra),
        decreases budget, n_slots - k,
    {
        let ghost pre = nodes_view(kids@);
        let ghost slots = rv[r as int].slots;
        proof {
            assert(slots[k as int] == rule.slots@[k as int]@);
            assert(slots.take(k + 1).drop_last() =~= slots.take(k as int));
            assert(slots.take(k + 1).last() == slots[k as int]);
            crate::grammar::lemma_slot_sum_member(slots, iz, k as int);
        }
        match &rule.slots[k] {
            Slot::Literal(b) => {
                let bytes = copy_bytes(b);
                kids.push(Node::Leaf { bytes });
                proof {
                    let leaf = NodeV::Leaf { bytes: b@ };
                    assert(wf_sub(rv, seq![leaf]));
                    assert(lit_sub(rv, seq![leaf]));
                    lemma_wf_kids_snoc(rv, pre, slots.take(k as int), seq![leaf], slots[k as int]);
                    lemma_lit_kids_snoc(rv, pre, slots.take(k as int), seq![leaf], slots[k as int]);
                    assert(nodes_view(kids@) =~= pre + seq![leaf]);
                    assert(slots.take(k + 1) =~= slots.take(k as int).push(slots[k as int]));
                }
            },
            Slot::NonTerm(m) => {
                proof {
                    assert(slot_cost(slots[k as int], iz) == iz[*m as int]);
                    assert(iz[*m as int] <= c - 1);
                }
                let give = if share <= rem_extra {
                    share
                } else {
                    rem_extra
                };
                let child_budget = ctx.min_size[*m] + give;
                rem_extra = rem_extra - give;
                let mut sub = gen_sub(ctx, *m, child_budget, rng);
                let ghost sub_v = nodes_view(sub@);
                kids.append(&mut sub);
                proof {
                    assert(fills_slot(rv, sub_v[0], slots[k as int]));
                    lemma_wf_kids_snoc(rv, pre, slots.take(k as int), sub_v, slots[k as int]);
                    lemma_lit_kids_snoc(rv, pre, slots.take(k as int), sub_v, slots[k as int]);
                    assert(nodes_view(kids@) =~= pre + sub_v);
                    assert(slots.take(k + 1) =~= slots.take(k as int).push(slots[k as int]));
                }
            },
        }
    }
    proof {
        assert(rv[r as int].slots.take(n_slots as int) =~= rv[r as int].slots);
    }
    let ghost kids_v = nodes_view(kids@);
    let total = kids.len() + 1;
    let mut out: Vec<Node> = Vec::new();
    out.push(Node::Apply { rule: r, len: total });
    out.append(&mut kids);
    proof {
        let ov = nodes_view(out@);
        assert(ov[0] == (NodeV::Apply { rule: r as int, len: total as int }));
        assert(ov.subrange(1, ov.len() as int) =~= kids_v);
    }
    out
}

/// A derivation tree, freshly generated.
impl Tree {
    /// Wraps a node vector.
    fn from_nodes(nodes: Vec<Node>) -> (t: Tree)
        ensures
            t@ == nodes_view(nodes@),
    {
        let t = Tree { nodes };
        proof {
            assert(t@ =~= nodes_view(t.nodes@));
        }
        t
    }
}

/// Generates a derivation tree for `root_symbol` aiming at `size_budget`
/// nodes: every rule choice is drawn among the rules whose minimum cost
/// fits the remaining budget, and when the budget is too small for the
/// symbol the minimum-size derivation is produced, so generation always
/// terminates for a loaded grammar.
pub fn generate(ctx: &Context, root_symbol: usize, size_budget: usize, rng: &mut Rng) -> (t: Tree)
    requires
        ctx.wf(),
        (root_symbol as int) < ctx.n_syms(),
    ensures
        wf_sub(ctx.rules_seq(), t@),
        lit_sub(ctx.rules_seq(), t@),
        root_sym(ctx.rules_seq(), t@) == root_symbol as int,
        t@.len() >= ctx.sizes()[root_symbol as int],
        ctx.sizes()[root_symbol as int] <= size_budget ==> t@.len() <= size_budget,
        ctx.sizes()[root_symbol as int] > size_budget ==> t@.len() == ctx.sizes()[root_symbol as int],
{
    let min_s = ctx.min_size(root_symbol);
    if size_budget >= min_s {
        Tree::from_nodes(gen_sub(ctx, root_symbol, size_budget, rng))
    } else {
        Tree::from_nodes(gen_min(ctx, root_symbol))
    }
}

impl Context {
    /// Unparses a derivation tree to the concrete syntax it denotes: the
    /// terminal payloads of its leaves, concatenated in depth-first,
    /// in-order traversal order (which, in the preorder arena, is index
    /// order). The output is a function of the tree alone, so unparsing the
    /// same tree twice yields byte-identical output.
    pub fn unparse(&self, tree: &Tree) -> (out: Vec<u8>)
        ensures
            out@ == spec_unparse(tree@),
    {
        let n = tree.nodes.len();
        let mut out: Vec<u8> = Vec::new();
        for i in 0..n
            invariant
                n == tree.nodes@.len(),
                out@ == spec_unparse(tree@.take(i as int)),
        {
            proof {
                assert(tree@.take(i + 1).drop_last() =~= tree@.take(i as int));
                assert(tree@.take(i + 1).last() == tree@[i as int]);
            }
            match &tree.nodes[i] {
                Node::Leaf { bytes } => {
                    let ghost pre = out@;
                    let nb = bytes.len();
                    for b in 0..nb
                        invariant
                            nb == bytes@.len(),
                            out@ == pre + bytes@.take(b as int),
                    {
                        out.push(bytes[b]);
                        proof {
                            assert(bytes@.take(b + 1) =~= bytes@.take(b as int).push(
                                bytes@[b as int],
                            ));
                            assert(out@ =~= pre + bytes@.take(b + 1));
                        }
                    }
                    proof {
                        assert(bytes@.take(nb as int) =~= bytes@);
                        assert(tree@[i as int] == (NodeV::Leaf { bytes: bytes@ }));
                    }
                },
                Node::Apply { .. } => {
                    proof {
                        assert(out@ =~= spec_unparse(tree@.take(i + 1)));
                    }
                },
            }
        }
        proof {
            assert(tree@.take(n as int) =~= tree@);
        }
        out
    }
}

impl Tree {
    /// The contiguous index span `[start, end)` owned by the subtree rooted
    /// at `node_index`; constant-time thanks to the per-node span bookkeeping.
    pub fn subtree_range(&self, ctx: &Context, node_index: usize) -> (r: (usize, usize))
        requires
            wf_sub(ctx.rules_seq(), self@),
            node_index < self@.len(),
        ensures
            r.0 == node_index,
            r.1 == node_index + n_len(self@[node_index as int]),
            node_index < r.1 <= self@.len(),
            wf_sub(ctx.rules_seq(), self@.subrange(r.0 as int, r.1 as int)),
    {
        proof {
            lemma_node_at(ctx.rules_seq(), self@, node_index as int);
        }
        let l: usize = match &self.nodes[node_index] {
            Node::Leaf { .. } => 1,
            Node::Apply { len, .. } => *len,
        };
        (node_index, node_index + l)
    }
}

/// The unsaturated slot sum decomposes from the front as well as from the
/// back.
pub proof fn lemma_slot_sum_front(slots: Seq<SlotV>, sizes: Seq<int>)
    requires
        slots.len() >= 1,
    ensures
        crate::grammar::slot_sum(slots, sizes) == slot_cost(slots[0], sizes)
            + crate::grammar::slot_sum(slots.drop_first(), sizes),
    decreases slots.len(),
{
    if slots.len() == 1 {
        assert(slots.drop_first() =~= Seq::<SlotV>::empty());
        assert(slots.drop_last() =~= Seq::<SlotV>::empty());
    } else {
        lemma_slot_sum_front(slots.drop_last(), sizes);
        assert(slots.drop_last().drop_first() =~= slots.drop_first().drop_last());
        assert(slots.drop_last()[0] == slots[0]);
        assert(slots.drop_first().last() == slots.last());
    }
}

/// Every subtree of a faithful arena is faithful.
pub proof fn lemma_lit_node_at(rules: Seq<RuleV>, s: Seq<NodeV>, i: int)
    requires
        wf_sub(rules, s),
        lit_sub(rules, s),
        0 <= i < s.len(),
    ensures
        lit_sub(rules, s.subrange(i, i + n_len(s[i]))),
    decreases s.len(), 0int,
{
    lemma_node_at(rules, s, i);
    if i == 0 {
        assert(n_len(s[0]) == s.len());
        assert(s.subrange(0, s.len() as int) =~= s);
    } else {
        let kids = s.subrange(1, s.len() as int);
        lemma_lit_kids_node_at(rules, kids, rules[s[0]->Apply_rule].slots, i - 1);
        assert(kids.subrange(i - 1, i - 1 + n_len(kids[i - 1])) =~= s.subrange(
            i,
            i + n_len(s[i]),
        ));
    }
}

/// Children-slice version of [`lemma_lit_node_at`].
pub proof fn lemma_lit_kids_node_at(rules: Seq<RuleV>, c: Seq<NodeV>, slots: Seq<SlotV>, i: int)
    requires
        wf_kids(rules, c, slots),
        lit_kids(rules, c, slots),
        0 <= i < c.len(),
    ensures
        lit_sub(rules, c.subrange(i, i + n_len(c[i]))),
    decreases c.len(), 1int + slots.len(),
{
    lemma_kids_node_at(rules, c, slots, i);
    let l0 = n_len(c[0]);
    let c0 = c.subrange(0, l0);
    if i < l0 {
        lemma_node_at(rules, c0, i);
        lemma_lit_node_at(rules, c0, i);
        assert(c0.subrange(i, i + n_len(c0[i])) =~= c.subrange(i, i + n_len(c[i])));
    } else {
        let rest = c.subrange(l0, c.len() as int);
        lemma_lit_kids_node_at(rules, rest, slots.drop_first(), i - l0);
        assert(rest.subrange(i - l0, i - l0 + n_len(rest[i - l0])) =~= c.subrange(
            i,
            i + n_len(c[i]),
        ));
    }
}

/// Law: the minimum-size table of a loaded grammar is a true lower bound.
/// Under the fixed-point inequality the table satisfies, every well-formed
/// subtree rooted at a rule node for symbol `s` has at least
/// `min(table[s], SIZE_CAP)` nodes, so no derivation beats the table.
pub proof fn lemma_tree_at_least_min_size(rules: Seq<RuleV>, sizes: Seq<int>, t: Seq<NodeV>)
    requires
        wf_sub(rules, t),
        forall|r: int|
            0 <= r < rules.len() ==> rule_wf(#[trigger] rules[r], sizes.len() as int),
        forall|i: int| 0 <= i < sizes.len() ==> 1 <= #[trigger] sizes[i] <= SIZE_CAP as int,
        forall|r: int|
            0 <= r < rules.len() ==> sizes[(#[trigger] rules[r]).nonterm]
                <= crate::grammar::rule_cost(rules[r].slots, sizes),
    ensures
        (t[0] matches NodeV::Apply { rule, .. }) ==> t.len() >= (if sizes[rules[t[0]->Apply_rule].nonterm]
            <= SIZE_CAP as int {
            sizes[rules[t[0]->Apply_rule].nonterm]
        } else {
            SIZE_CAP as int
        }),
    decreases t.len(), 0int,
{
    match t[0] {
        NodeV::Leaf { .. } => {},
        NodeV::Apply { rule, .. } => {
            let slots = rules[rule].slots;
            let kids = t.subrange(1, t.len() as int);
            assert forall|k: int| 0 <= k < slots.len() implies slot_cost(
                #[trigger] slots[k],
                sizes,
            ) >= 0 by {
                assert(slot_wf(slots[k], sizes.len() as int));
            }
            lemma_kids_at_least(rules, sizes, kids, slots);
            crate::grammar::lemma_rule_cost_sum(slots, sizes);
            assert(sizes[rules[rule].nonterm] <= crate::grammar::rule_cost(slots, sizes));
        },
    }
}

/// Children-slice version of [`lemma_tree_at_least_min_size`]: the
/// children of one rule node cannot be fewer nodes than
/// `min(slot_sum, SIZE_CAP - 1)`.
pub proof fn lemma_kids_at_least(rules: Seq<RuleV>, sizes: Seq<int>, c: Seq<NodeV>, slots: Seq<SlotV>)
    requires
        wf_kids(rules, c, slots),
        forall|r: int|
            0 <= r < rules.len() ==> rule_wf(#[trigger] rules[r], sizes.len() as int),
        forall|i: int| 0 <= i < sizes.len() ==> 1 <= #[trigger] sizes[i] <= SIZE_CAP as int,
        forall|r: int|
            0 <= r < rules.len() ==> sizes[(#[trigger] rules[r]).nonterm]
                <= crate::grammar::rule_cost(rules[r].slots, sizes),
        forall|k: int| 0 <= k < slots.len() ==> slot_wf(#[trigger] slots[k], sizes.len() as int),
    ensures
        c.len() >= (if crate::grammar::slot_sum(slots, sizes) <= SIZE_CAP as int - 1 {
            crate::grammar::slot_sum(slots, sizes)
        } else {
            SIZE_CAP as int - 1
        }),
    decreases c.len(), 1int + slots.len(),
{
    if slots.len() == 0 {
    } else {
        let l0 = n_len(c[0]);
        let c0 = c.subrange(0, l0);
        let rest = c.subrange(l0, c.len() as int);
        lemma_slot_sum_front(slots, sizes);
        assert forall|k: int| 0 <= k < slots.drop_first().len() implies slot_wf(
            #[trigger] slots.drop_first()[k],
            sizes.len() as int,
        ) by {
            assert(slots.drop_first()[k] == slots[k + 1]);
        }
        lemma_kids_at_least(rules, sizes, rest, slots.drop_first());
        match c[0] {
            NodeV::Leaf { .. } => {
                assert(slot_cost(slots[0], sizes) == 1);
            },
            NodeV::Apply { .. } => {
                lemma_tree_at_least_min_size(rules, sizes, c0);
                assert(c0[0] == c[0]);
            },
        }
    }
}

/// Splicing a faithful replacement rooted at a rule node over a rule-node
/// subtree preserves terminal-payload faithfulness of the whole arena.
pub proof fn lemma_splice_lit(rules: Seq<RuleV>, s: Seq<NodeV>, i: int, repl: Seq<NodeV>)
    requires
        wf_sub(rules, s),
        lit_sub(rules, s),
        0 <= i < s.len(),
        wf_sub(rules, repl),
        lit_sub(rules, repl),
        roots_compatible(rules, s[i], repl[0]),
        s[i] matches NodeV::Apply { .. },
        repl[0] matches NodeV::Apply { .. },
    ensures
        lit_sub(rules, spec_splice(s, i, repl)),
    decreases s.len(), 0int,
{
    lemma_node_at(rules, s, i);
    let l = n_len(s[i]);
    let delta = repl.len() - l;
    let out = spec_splice(s, i, repl);
    if i == 0 {
        assert(out =~= repl);
    } else {
        let kids = s.subrange(1, s.len() as int);
        let slots = rules[s[0]->Apply_rule].slots;
        lemma_splice_lit_kids(rules, kids, slots, i - 1, repl);
        let kout = spec_splice(kids, i - 1, repl);
        assert(out =~= seq![bump(s[0], delta)] + kout) by {
            assert forall|m: int| 0 <= m < out.len() implies out[m] == (seq![bump(s[0], delta)]
                + kout)[m] by {
                if m == 0 {
                    assert(out[0] == bump(s[0], delta));
                } else if m < i {
                    assert(out[m] == (if m + n_len(s[m]) > i {
                        bump(s[m], delta)
                    } else {
                        s[m]
                    }));
                    assert(kout[m - 1] == (if (m - 1) + n_len(kids[m - 1]) > i - 1 {
                        bump(kids[m - 1], delta)
                    } else {
                        kids[m - 1]
                    }));
                    assert(kids[m - 1] == s[m]);
                } else if m < i + repl.len() {
                    assert(out[m] == repl[m - i]);
                    assert(kout[(m - 1)] == repl[(m - 1) - (i - 1)]);
                } else {
                    assert(out[m] == s[m - repl.len() + l]);
                    assert(kout[m - 1] == kids[(m - 1) - repl.len() + l]);
                }
            }
        }
        assert(out[0] == bump(s[0], delta));
        assert(out.subrange(1, out.len() as int) =~= kout);
    }
}

/// Children-slice version of [`lemma_splice_lit`].
pub proof fn lemma_splice_lit_kids(
    rules: Seq<RuleV>,
    c: Seq<NodeV>,
    slots: Seq<SlotV>,
    i: int,
    repl: Seq<NodeV>,
)
    requires
        wf_kids(rules, c, slots),
        lit_kids(rules, c, slots),
        0 <= i < c.len(),
        wf_sub(rules, repl),
        lit_sub(rules, repl),
        roots_compatible(rules, c[i], repl[0]),
        c[i] matches NodeV::Apply { .. },
        repl[0] matches NodeV::Apply { .. },
    ensures
        lit_kids(rules, spec_splice(c, i, repl), slots),
    decreases c.len(), 1int + slots.len(),
{
    lemma_kids_node_at(rules, c, slots, i);
    let l = n_len(c[i]);
    let delta = repl.len() - l;
    let out = spec_splice(c, i, repl);
    let l0 = n_len(c[0]);
    let c0 = c.subrange(0, l0);
    let rest = c.subrange(l0, c.len() as int);
    if i < l0 {
        // The splice lands inside the first child.
        lemma_splice_wf(rules, c0, i, repl);
        if i > 0 {
            lemma_splice_lit(rules, c0, i, repl);
        }
        let fout = spec_splice(c0, i, repl);
        assert(out =~= fout + rest) by {
            assert forall|m: int| 0 <= m < out.len() implies out[m] == (fout + rest)[m] by {
                if m < i {
                    assert(c0[m] == c[m]);
                    assert(out[m] == (if m + n_len(c[m]) > i {
                        bump(c[m], delta)
                    } else {
                        c[m]
                    }));
                    assert(fout[m] == (if m + n_len(c0[m]) > i {
                        bump(c0[m], delta)
                    } else {
                        c0[m]
                    }));
                } else if m < i + repl.len() {
                    assert(out[m] == repl[m - i]);
                    assert(fout[m] == repl[m - i]);
                } else if m < l0 + delta {
                    assert(out[m] == c[m - delta]);
                    assert(fout[m] == c0[m - delta]);
                } else {
                    assert(out[m] == c[m - delta]);
                    assert(rest[m - (l0 + delta)] == c[m - delta]);
                }
            }
        }
        assert(fout.len() == l0 + delta);
        if i == 0 {
            assert(fout =~= repl);
            assert(n_len(fout[0]) == fout.len());
        } else {
            assert(fout[0] == bump(c0[0], delta));
            assert(n_len(fout[0]) == l0 + delta);
        }
        assert(out.subrange(0, l0 + delta) =~= fout);
        assert(out.subrange(l0 + delta, out.len() as int) =~= rest);
    } else {
        // The splice lands in a later sibling: the first child is copied
        // verbatim because no node of it spans past its subtree's end.
        lemma_splice_lit_kids(rules, rest, slots.drop_first(), i - l0, repl);
        let rout = spec_splice(rest, i - l0, repl);
        assert(out =~= c0 + rout) by {
            assert forall|m: int| 0 <= m < out.len() implies out[m] == (c0 + rout)[m] by {
                if m < l0 {
                    lemma_node_at(rules, c0, m);
                    assert(n_len(c0[m]) == n_len(c[m]));
                    assert(m + n_len(c[m]) <= l0);
                    assert(out[m] == c[m]);
                } else if m < i {
                    assert(out[m] == (if m + n_len(c[m]) > i {
                        bump(c[m], delta)
                    } else {
                        c[m]
                    }));
                    assert(rest[m - l0] == c[m]);
                    assert(rout[m - l0] == (if (m - l0) + n_len(rest[m - l0]) > i - l0 {
                        bump(rest[m - l0], delta)
                    } else {
                        rest[m - l0]
                    }));
                } else if m < i + repl.len() {
                    assert(out[m] == repl[m - i]);
                    assert(rout[m - l0] == repl[(m - l0) - (i - l0)]);
                } else {
                    assert(out[m] == c[m - delta]);
                    assert(rout[m - l0] == rest[(m - l0) - delta]);
                }
            }
        }
        assert(out.subrange(0, l0) =~= c0);
        assert(out.subrange(l0, out.len() as int) =~= rout);
        assert(n_len(out[0]) == l0);
    }
}

/// Height of a subtree slice: one level per rule application, a terminal
/// leaf standing one level tall.
pub open spec fn tree_height(s: Seq<NodeV>) -> int
    decreases s.len(), 0int,
{
    if s.len() < 1 {
        0
    } else {
        match s[0] {
            NodeV::Leaf { .. } => 1,
            NodeV::Apply { .. } => 1 + kids_height(s.subrange(1, s.len() as int)),
        }
    }
}

/// Tallest subtree height within a children slice.
pub open spec fn kids_height(c: Seq<NodeV>) -> int
    decreases c.len(), 1int,
{
    if c.len() == 0 {
        0
    } else if 1 <= n_len(c[0]) && n_len(c[0]) <= c.len() {
        let h0 = tree_height(c.subrange(0, n_len(c[0])));
        let hr = kids_height(c.subrange(n_len(c[0]), c.len() as int));
        if h0 > hr {
            h0
        } else {
            hr
        }
    } else {
        1
    }
}

/// Law: the minimum-height table of a loaded grammar is a true lower
/// bound. Under the fixed-point inequality the table satisfies, every
/// well-formed subtree rooted at a rule node for symbol `s` stands at
/// least `min(table[s], SIZE_CAP)` levels tall.
pub proof fn lemma_tree_at_least_min_depth(rules: Seq<RuleV>, depths: Seq<int>, t: Seq<NodeV>)
    requires
        wf_sub(rules, t),
        forall|r: int|
            0 <= r < rules.len() ==> rule_wf(#[trigger] rules[r], depths.len() as int),
        forall|i: int| 0 <= i < depths.len() ==> 1 <= #[trigger] depths[i] <= SIZE_CAP as int,
        forall|r: int|
            0 <= r < rules.len() ==> depths[(#[trigger] rules[r]).nonterm]
                <= crate::grammar::depth_cost(rules[r].slots, depths),
    ensures
        tree_height(t) >= 1,
        (t[0] matches NodeV::Apply { rule, .. }) ==> tree_height(t) >= (if depths[rules[t[0]->Apply_rule].nonterm]
            <= SIZE_CAP as int {
            depths[rules[t[0]->Apply_rule].nonterm]
        } else {
            SIZE_CAP as int
        }),
    decreases t.len(), 0int,
{
    match t[0] {
        NodeV::Leaf { .. } => {},
        NodeV::Apply { rule, .. } => {
            let slots = rules[rule].slots;
            let kids = t.subrange(1, t.len() as int);
            lemma_kids_at_least_depth(rules, depths, kids, slots);
            crate::grammar::lemma_depth_cost_hmax(slots, depths);
            assert(depths[rules[rule].nonterm] <= crate::grammar::depth_cost(slots, depths));
        },
    }
}

/// Children-slice version of [`lemma_tree_at_least_min_depth`]: one level
/// above its children, a rule node reaches the unsaturated minimum height
/// of its slot sequence.
pub proof fn lemma_kids_at_least_depth(
    rules: Seq<RuleV>,
    depths: Seq<int>,
    c: Seq<NodeV>,
    slots: Seq<SlotV>,
)
    requires
        wf_kids(rules, c, slots),
        forall|r: int|
            0 <= r < rules.len() ==> rule_wf(#[trigger] rules[r], depths.len() as int),
        forall|i: int| 0 <= i < depths.len() ==> 1 <= #[trigger] depths[i] <= SIZE_CAP as int,
        forall|r: int|
            0 <= r < rules.len() ==> depths[(#[trigger] rules[r]).nonterm]
                <= crate::grammar::depth_cost(rules[r].slots, depths),
        forall|k: int| 0 <= k < slots.len() ==> slot_wf(#[trigger] slots[k], depths.len() as int),
    ensures
        kids_height(c) >= 0,
        1 + kids_height(c) >= crate::grammar::slot_hmax(slots, depths),
    decreases c.len(), 1int + slots.len(),
{
    if slots.len() == 0 {
    } else {
        let l0 = n_len(c[0]);
        let c0 = c.subrange(0, l0);
        let rest = c.subrange(l0, c.len() as int);
        crate::grammar::lemma_slot_hmax_front(slots, depths);
        assert forall|k: int| 0 <= k < slots.drop_first().len() implies slot_wf(
            #[trigger] slots.drop_first()[k],
            depths.len() as int,
        ) by {
            assert(slots.drop_first()[k] == slots[k + 1]);
        }
        lemma_kids_at_least_depth(rules, depths, rest, slots.drop_first());
        lemma_tree_at_least_min_depth(rules, depths, c0);
        match c[0] {
            NodeV::Leaf { .. } => {
                assert(c0[0] == c[0]);
                assert(tree_height(c0) == 1);
            },
            NodeV::Apply { .. } => {
                assert(c0[0] == c[0]);
                assert(fills_slot(rules, c[0], slots[0]));
            },
        }
    }
}

/// Law: the minimum-size table of a loaded context is achieved. For every
/// symbol there is a well-formed derivation tree rooted at it with exactly
/// `min_size[symbol]` nodes, so no symbol a loaded grammar knows is
/// unproductive.
pub proof fn lemma_min_tree_exists(ctx: Context, s: int)
    requires
        ctx.wf(),
        0 <= s < ctx.n_syms(),
    ensures
        exists|t: Seq<NodeV>|
            wf_sub(ctx.rules_seq(), t) && root_sym(ctx.rules_seq(), t) == s && (#[trigger] t.len())
                == ctx.sizes()[s],
    decreases ctx.sizes()[s] + 1, 0int,
{
    let rv = ctx.rules_seq();
    let iz = ctx.sizes();
    let mr = ctx.min_rule@[s] as int;
    let slots = rv[mr].slots;
    assert(rule_wf(rv[mr], ctx.n_syms()));
    assert forall|k: int| 0 <= k < slots.len() implies slot_cost(#[trigger] slots[k], iz)
        >= 0 by {
        assert(slot_wf(slots[k], ctx.n_syms()));
    }
    crate::grammar::lemma_rule_cost_sum(slots, iz);
    assert(1 + crate::grammar::slot_sum(slots, iz) == iz[s]);
    assert forall|k: int|
        0 <= k < slots.len() && (#[trigger] slots[k]) matches SlotV::NonTerm(m) implies iz[
        slots[k]->NonTerm_0] < iz[s] by {
        crate::grammar::lemma_slot_sum_member(slots, iz, k);
    }
    lemma_min_kids_exist(ctx, slots, iz[s]);
    let c = choose|c: Seq<NodeV>|
        wf_kids(ctx.rules_seq(), c, slots) && (#[trigger] c.len()) == crate::grammar::slot_sum(
            slots,
            ctx.sizes(),
        );
    let t = seq![NodeV::Apply { rule: mr, len: iz[s] }] + c;
    assert(t.subrange(1, t.len() as int) =~= c);
    assert(wf_sub(rv, t));
    assert(t.len() == iz[s]);
}

/// Helper for [`lemma_min_tree_exists`]: a children slice of exactly the
/// slots' summed minimum cost exists for any slot sequence whose
/// nonterminals all have a minimum size below `bound`.
pub proof fn lemma_min_kids_exist(ctx: Context, slots: Seq<SlotV>, bound: int)
    requires
        ctx.wf(),
        forall|k: int| 0 <= k < slots.len() ==> slot_wf(#[trigger] slots[k], ctx.n_syms()),
        forall|k: int|
            (0 <= k < slots.len() && (#[trigger] slots[k]) matches SlotV::NonTerm(m))
                ==> ctx.sizes()[slots[k]->NonTerm_0] < bound,
    ensures
        exists|c: Seq<NodeV>|
            wf_kids(ctx.rules_seq(), c, slots) && (#[trigger] c.len()) == crate::grammar::slot_sum(
                slots,
                ctx.sizes(),
            ),
    decreases bound, 1int + slots.len(),
{
    let rv = ctx.rules_seq();
    let iz = ctx.sizes();
    if slots.len() == 0 {
        let c = Seq::<NodeV>::empty();
        assert(wf_kids(rv, c, slots) && c.len() == crate::grammar::slot_sum(slots, iz));
    } else {
        let front = slots.drop_last();
        assert forall|k: int| 0 <= k < front.len() implies slot_wf(
            #[trigger] front[k],
            ctx.n_syms(),
        ) by {
            assert(front[k] == slots[k]);
        }
        assert forall|k: int|
            0 <= k < front.len() && (#[trigger] front[k]) matches SlotV::NonTerm(m) implies iz[
            front[k]->NonTerm_0] < bound by {
            assert(front[k] == slots[k]);
        }
        lemma_min_kids_exist(ctx, front, bound);
        let c0 = choose|c0: Seq<NodeV>|
            wf_kids(ctx.rules_seq(), c0, front) && (#[trigger] c0.len())
                == crate::grammar::slot_sum(front, ctx.sizes());
        let k = slots.len() - 1;
        match slots[k] {
            SlotV::Literal(bytes) => {
                let leaf = seq![NodeV::Leaf { bytes }];
                assert(wf_sub(rv, leaf));
                lemma_wf_kids_snoc(rv, c0, front, leaf, slots[k]);
                let c = c0 + leaf;
                assert(front.push(slots[k]) =~= slots);
                assert(wf_kids(rv, c, slots) && c.len() == crate::grammar::slot_sum(slots, iz));
            },
            SlotV::NonTerm(m) => {
                assert(iz[m] < bound);
                lemma_min_tree_exists(ctx, m);
                let sub = choose|sub: Seq<NodeV>|
                    wf_sub(ctx.rules_seq(), sub) && root_sym(ctx.rules_seq(), sub) == m && (
                    #[trigger] sub.len()) == ctx.sizes()[m];
                assert(fills_slot(rv, sub[0], slots[k]));
                lemma_wf_kids_snoc(rv, c0, front, sub, slots[k]);
                let c = c0 + sub;
                assert(front.push(slots[k]) =~= slots);
                assert(wf_kids(rv, c, slots) && c.len() == crate::grammar::slot_sum(slots, iz));
            },
        }
    }
}

/// Law: unparsing is deterministic. The unparsed output is a function of
/// the node sequence alone, so re-deriving the same tree and unparsing
/// again yields byte-identical output.
pub proof fn lemma_unparse_deterministic(a: Seq<NodeV>, b: Seq<NodeV>)
    requires
        a == b,
    ensures
        spec_unparse(a) == spec_unparse(b),
{
}

/// Adjusts a node's recorded span length by `delta` (leaves are untouched:
/// their span is always 1).
pub open spec fn bump(n: NodeV, delta: int) -> NodeV {
    match n {
        NodeV::Leaf { .. } => n,
        NodeV::Apply { rule, len } => NodeV::Apply { rule, len: len + delta },
    }
}

/// The arena after splicing `repl` in place of the subtree rooted at `i`:
/// the prefix with every enclosing span widened or narrowed by the length
/// difference, then `repl`, then the untouched suffix.
pub open spec fn spec_splice(s: Seq<NodeV>, i: int, repl: Seq<NodeV>) -> Seq<NodeV> {
    let l = n_len(s[i]);
    let delta = repl.len() - l;
    s.take(i).map(|j: int, n: NodeV| if j + n_len(n) > i { bump(n, delta) } else { n }) + repl
        + s.skip(i + l)
}

/// In a well-formed subtree, a node whose span reaches past `i` encloses
/// the whole span of the node at `i`: spans nest, they never overlap
/// partially.
pub proof fn lemma_span_nested(rules: Seq<RuleV>, s: Seq<NodeV>, j: int, i: int)
    requires
        wf_sub(rules, s),
        0 <= j < i < s.len(),
        j + n_len(s[j]) > i,
    ensures
        j + n_len(s[j]) >= i + n_len(s[i]),
    decreases s.len(), 0int,
{
    if j == 0 {
        lemma_node_at(rules, s, i);
    } else {
        let kids = s.subrange(1, s.len() as int);
        lemma_span_nested_kids(rules, kids, rules[s[0]->Apply_rule].slots, j - 1, i - 1);
    }
}

/// Children-slice version of [`lemma_span_nested`].
pub proof fn lemma_span_nested_kids(
    rules: Seq<RuleV>,
    c: Seq<NodeV>,
    slots: Seq<SlotV>,
    j: int,
    i: int,
)
    requires
        wf_kids(rules, c, slots),
        0 <= j < i < c.len(),
        j + n_len(c[j]) > i,
    ensures
        j + n_len(c[j]) >= i + n_len(c[i]),
    decreases c.len(), 1int + slots.len(),
{
    let l0 = n_len(c[0]);
    let c0 = c.subrange(0, l0);
    if j < l0 {
        if i < l0 {
            lemma_span_nested(rules, c0, j, i);
        } else {
            lemma_node_at(rules, c0, j);
            assert(false);
        }
    } else {
        let rest = c.subrange(l0, c.len() as int);
        lemma_span_nested_kids(rules, rest, slots.drop_first(), j - l0, i - l0);
    }
}

/// Splicing a root-compatible well-formed replacement over the subtree at
/// `i` preserves well-formedness of the whole arena.
pub proof fn lemma_splice_wf(rules: Seq<RuleV>, s: Seq<NodeV>, i: int, repl: Seq<NodeV>)
    requires
        wf_sub(rules, s),
        0 <= i < s.len(),
        wf_sub(rules, repl),
        roots_compatible(rules, s[i], repl[0]),
    ensures
        wf_sub(rules, spec_splice(s, i, repl)),
        spec_splice(s, i, repl).len() == s.len() + repl.len() - n_len(s[i]),
    decreases s.len(), 0int,
{
    lemma_node_at(rules, s, i);
    let l = n_len(s[i]);
    let delta = repl.len() - l;
    let out = spec_splice(s, i, repl);
    if i == 0 {
        assert(out =~= repl);
    } else {
        let kids = s.subrange(1, s.len() as int);
        let slots = rules[s[0]->Apply_rule].slots;
        lemma_splice_kids(rules, kids, slots, i - 1, repl);
        let kout = spec_splice(kids, i - 1, repl);
        assert(out =~= seq![bump(s[0], delta)] + kout) by {
            assert forall|m: int| 0 <= m < out.len() implies out[m] == (seq![bump(s[0], delta)]
                + kout)[m] by {
                if m == 0 {
                    assert(out[0] == bump(s[0], delta));
                } else if m < i {
                    assert(out[m] == (if m + n_len(s[m]) > i {
                        bump(s[m], delta)
                    } else {
                        s[m]
                    }));
                    assert(kout[m - 1] == (if (m - 1) + n_len(kids[m - 1]) > i - 1 {
                        bump(kids[m - 1], delta)
                    } else {
                        kids[m - 1]
                    }));
                    assert(kids[m - 1] == s[m]);
                } else if m < i + repl.len() {
                    assert(out[m] == repl[m - i]);
                    assert(kout[(m - 1)] == repl[(m - 1) - (i - 1)]);
                } else {
                    assert(out[m] == s[m - repl.len() + l]);
                    assert(kout[m - 1] == kids[(m - 1) - repl.len() + l]);
                }
            }
        }
        assert(out[0] == bump(s[0], delta));
        assert(out.subrange(1, out.len() as int) =~= kout);
    }
}

/// Children-slice version of [`lemma_splice_wf`].
pub proof fn lemma_splice_kids(
    rules: Seq<RuleV>,
    c: Seq<NodeV>,
    slots: Seq<SlotV>,
    i: int,
    repl: Seq<NodeV>,
)
    requires
        wf_kids(rules, c, slots),
        0 <= i < c.len(),
        wf_sub(rules, repl),
        roots_compatible(rules, c[i], repl[0]),
    ensures
        wf_kids(rules, spec_splice(c, i, repl), slots),
        spec_splice(c, i, repl).len() == c.len() + repl.len() - n_len(c[i]),
    decreases c.len(), 1int + slots.len(),
{
    lemma_kids_node_at(rules, c, slots, i);
    let l = n_len(c[i]);
    let delta = repl.len() - l;
    let out = spec_splice(c, i, repl);
    let l0 = n_len(c[0]);
    let c0 = c.subrange(0, l0);
    let rest = c.subrange(l0, c.len() as int);
    if i < l0 {
        // The splice lands inside the first child.
        lemma_splice_wf(rules, c0, i, repl);
        let fout = spec_splice(c0, i, repl);
        assert(out =~= fout + rest) by {
            assert forall|m: int| 0 <= m < out.len() implies out[m] == (fout + rest)[m] by {
                if m < i {
                    assert(c0[m] == c[m]);
                    assert(out[m] == (if m + n_len(c[m]) > i {
                        bump(c[m], delta)
                    } else {
                        c[m]
                    }));
                    assert(fout[m] == (if m + n_len(c0[m]) > i {
                        bump(c0[m], delta)
                    } else {
                        c0[m]
                    }));
                } else if m < i + repl.len() {
                    assert(out[m] == repl[m - i]);
                    assert(fout[m] == repl[m - i]);
                } else if m < l0 + delta {
                    assert(out[m] == c[m - delta]);
                    assert(fout[m] == c0[m - delta]);
                } else {
                    assert(out[m] == c[m - delta]);
                    assert(rest[m - (l0 + delta)] == c[m - delta]);
                }
            }
        }
        assert(fout.len() == l0 + delta);
        if i == 0 {
            assert(fout =~= repl);
            assert(n_len(fout[0]) == fout.len());
            assert(fills_slot(rules, fout[0], slots[0]));
        } else {
            assert(fout[0] == bump(c0[0], delta));
            assert(n_len(fout[0]) == l0 + delta);
            assert(fills_slot(rules, fout[0], slots[0]));
        }
        assert(out.subrange(0, l0 + delta) =~= fout);
        assert(out.subrange(l0 + delta, out.len() as int) =~= rest);
    } else {
        // The splice lands in a later sibling: the first child is copied
        // verbatim because no node of it spans past its subtree's end.
        lemma_splice_kids(rules, rest, slots.drop_first(), i - l0, repl);
        let rout = spec_splice(rest, i - l0, repl);
        assert(out =~= c0 + rout) by {
            assert forall|m: int| 0 <= m < out.len() implies out[m] == (c0 + rout)[m] by {
                if m < l0 {
                    lemma_node_at(rules, c0, m);
                    assert(n_len(c0[m]) == n_len(c[m]));
                    assert(m + n_len(c[m]) <= l0);
                    assert(out[m] == c[m]);
                } else if m < i {
                    assert(out[m] == (if m + n_len(c[m]) > i {
                        bump(c[m], delta)
                    } else {
                        c[m]
                    }));
                    assert(rest[m - l0] == c[m]);
                    assert(rout[m - l0] == (if (m - l0) + n_len(rest[m - l0]) > i - l0 {
                        bump(rest[m - l0], delta)
                    } else {
                        rest[m - l0]
                    }));
                } else if m < i + repl.len() {
                    assert(out[m] == repl[m - i]);
                    assert(rout[m - l0] == repl[(m - l0) - (i - l0)]);
                } else {
                    assert(out[m] == c[m - delta]);
                    assert(rout[m - l0] == rest[(m - l0) - delta]);
                }
            }
        }
        assert(out.subrange(0, l0) =~= c0);
        assert(out.subrange(l0, out.len() as int) =~= rout);
        assert(n_len(out[0]) == l0);
    }
}

impl Tree {
    /// Splices `replacement` in place of the subtree rooted at
    /// `node_index`, renumbering the span bookkeeping of every enclosing
    /// node; the sole legality condition is that the replacement's root
    /// produce the same symbol as the replaced node (or that both be
    /// terminal leaves). On a mismatch the original tree is left untouched
    /// and an error is returned.
    pub fn replace_subtree(&self, ctx: &Context, node_index: usize, replacement: &Tree) -> (r:
        Result<Tree, SymbolMismatchError>)
        requires
            wf_sub(ctx.rules_seq(), self@),
            node_index < self@.len(),
            wf_sub(ctx.rules_seq(), replacement@),
            self@.len() + replacement@.len() <= usize::MAX,
        ensures
            match r {
                Ok(t2) => {
                    &&& roots_compatible(
                        ctx.rules_seq(),
                        self@[node_index as int],
                        replacement@[0],
                    )
                    &&& t2@ == spec_splice(self@, node_index as int, replacement@)
                    &&& wf_sub(ctx.rules_seq(), t2@)
                    &&& t2@.len() == self@.len() + replacement@.len() - n_len(
                        self@[node_index as int],
                    )
                    &&& t2@.subrange(
                        node_index as int,
                        node_index + replacement@.len(),
                    ) == replacement@
                    &&& root_sym(ctx.rules_seq(), t2@) == root_sym(ctx.rules_seq(), self@)
                    &&& (lit_sub(ctx.rules_seq(), self@) && lit_sub(ctx.rules_seq(), replacement@)
                        && (self@[node_index as int] matches NodeV::Apply { .. }) && (
                    replacement@[0] matches NodeV::Apply { .. })) ==> lit_sub(
                        ctx.rules_seq(),
                        t2@,
                    )
                },
                Err(_) => !roots_compatible(
                    ctx.rules_seq(),
                    self@[node_index as int],
                    replacement@[0],
                ),
            },
    {
        let ghost rv = ctx.rules_seq();
        proof {
            lemma_node_at(rv, self@, node_index as int);
            lemma_node_at(rv, replacement@, 0);
        }
        let l: usize = match &self.nodes[node_index] {
            Node::Leaf { .. } => 1,
            Node::Apply { len, .. } => *len,
        };
        let repl_len = replacement.nodes.len();
        let compatible: bool = match (&self.nodes[node_index], &replacement.nodes[0]) {
            (Node::Leaf { .. }, Node::Leaf { .. }) => true,
            (Node::Apply { rule: ra, .. }, Node::Apply { rule: rb, .. }) => {
                proof {
                    assert(wf_sub(rv, self@.subrange(node_index as int, node_index + l)));
                    assert(0 <= (*ra as int) < rv.len());
                    assert(0 <= (*rb as int) < rv.len());
                }
                ctx.rules[*ra].nonterm == ctx.rules[*rb].nonterm
            },
            _ => false,
        };
        if !compatible {
            return Err(SymbolMismatchError);
        }
        let ghost spliced = spec_splice(self@, node_index as int, replacement@);
        let ghost delta = replacement@.len() - l as int;
        let mut out: Vec<Node> = Vec::new();
        for j in 0..node_index
            invariant
                rv == ctx.rules_seq(),
                wf_sub(rv, self@),
                node_index < self@.len(),
                wf_sub(rv, replacement@),
                self@.len() + replacement@.len() <= usize::MAX,
                l == n_len(self@[node_index as int]),
                node_index + l <= self@.len(),
                repl_len == replacement@.len(),
                delta == repl_len - l as int,
                out@.len() == j,
                forall|m: int|
                    0 <= m < j ==> nodes_view(out@)[m] == (if m + n_len(self@[m]) > node_index
                        as int {
                        bump(self@[m], delta)
                    } else {
                        self@[m]
                    }),
        {
            let node = &self.nodes[j];
            let ghost pre = nodes_view(out@);
            let nl: usize = match node {
                Node::Leaf { .. } => 1,
                Node::Apply { len, .. } => *len,
            };
            proof {
                assert(nl == n_len(self@[j as int]));
                lemma_node_at(rv, self@, j as int);
            }
            if j + nl > node_index {
                proof {
                    lemma_span_nested(rv, self@, j as int, node_index as int);
                    assert(nl >= l);
                }
                match node {
                    Node::Apply { rule, len } => {
                        out.push(Node::Apply { rule: *rule, len: *len + repl_len - l });
                    },
                    Node::Leaf { .. } => {
                        proof {
                            assert(false);
                        }
                        out.push(copy_node(node));
                    },
                }
            } else {
                out.push(copy_node(node));
            }
            proof {
                assert(nodes_view(out@) =~= pre.push(nodes_view(out@).last()));
            }
        }
        for j in 0..repl_len
            invariant
                rv == ctx.rules_seq(),
                node_index < self@.len(),
                l == n_len(self@[node_index as int]),
                node_index + l <= self@.len(),
                repl_len == replacement@.len(),
                delta == repl_len - l as int,
                out@.len() == node_index + j,
                forall|m: int|
                    0 <= m < node_index ==> nodes_view(out@)[m] == (if m + n_len(self@[m])
                        > node_index as int {
                        bump(self@[m], delta)
                    } else {
                        self@[m]
                    }),
                forall|m: int|
                    0 <= m < j ==> nodes_view(out@)[node_index + m] == replacement@[m],
        {
            let ghost pre = nodes_view(out@);
            out.push(copy_node(&replacement.nodes[j]));
            proof {
                assert(nodes_view(out@) =~= pre.push(nodes_view(out@).last()));
            }
        }
        let n = self.nodes.len();
        let start_suffix = node_index + l;
        for j in start_suffix..n
            invariant
                rv == ctx.rules_seq(),
                node_index < self@.len(),
                l == n_len(self@[node_index as int]),
                start_suffix == node_index + l,
                node_index + l <= self@.len(),
                n == self@.len(),
                repl_len == replacement@.len(),
                delta == repl_len - l as int,
                out@.len() == node_index + repl_len + (j - start_suffix),
                forall|m: int|
                    0 <= m < node_index ==> nodes_view(out@)[m] == (if m + n_len(self@[m])
                        > node_index as int {
                        bump(self@[m], delta)
                    } else {
                        self@[m]
                    }),
                forall|m: int|
                    0 <= m < repl_len ==> nodes_view(out@)[node_index + m] == replacement@[m],
                forall|m: int|
                    start_suffix <= m < j ==> nodes_view(out@)[m + delta] == self@[m],
        {
            let ghost pre = nodes_view(out@);
            out.push(copy_node(&self.nodes[j]));
            proof {
                assert(nodes_view(out@) =~= pre.push(nodes_view(out@).last()));
                assert(nodes_view(out@)[j + delta] == self@[j as int]);
            }
        }
        proof {
            assert(nodes_view(out@) =~= spliced) by {
                assert(spliced.len() == self@.len() + replacement@.len() - l);
                assert(nodes_view(out@).len() == spliced.len());
                assert forall|m: int| 0 <= m < spliced.len() implies nodes_view(out@)[m]
                    == spliced[m] by {
                    if m < node_index {
                        assert(spliced[m] == (if m + n_len(self@[m]) > node_index as int {
                            bump(self@[m], delta)
                        } else {
                            self@[m]
                        }));
                    } else if m < node_index + repl_len {
                        assert(spliced[m] == replacement@[m - node_index]);
                    } else {
                        assert(spliced[m] == self@[m - delta]);
                        assert(nodes_view(out@)[(m - delta) + delta] == self@[m - delta]);
                    }
                }
            }
            lemma_splice_wf(rv, self@, node_index as int, replacement@);
            assert(spliced.subrange(node_index as int, node_index + repl_len) =~= replacement@);
            if lit_sub(rv, self@) && lit_sub(rv, replacement@) && (self@[node_index as int] matches
                NodeV::Apply { .. }) && (replacement@[0] matches NodeV::Apply { .. }) {
                lemma_splice_lit(rv, self@, node_index as int, replacement@);
            }
        }
        let t2 = Tree::from_nodes(out);
        proof {
            if node_index > 0 {
                assert(t2@[0] == bump(self@[0], delta));
            }
        }
        Ok(t2)
    }
}

/// One of the structural mutation strategies of the engine. Recombination
/// with a sibling tree has its own entry point, [`Tree::recombine`].
#[derive(Clone, Copy, Debug, PartialEq, Eq, Structural)]
pub enum MutationStrategy {
    /// Splice in a same-symbol subtree harvested into the chunk store.
    Splice,
    /// Regenerate the picked subtree from scratch at a similar size.
    Regenerate,
    /// Rewrite the payload bytes of a terminal leaf.
    TerminalBytes,
}

impl Tree {
    /// Applies one structural mutation: picks a node at random and, for a
    /// rule node, splices in a same-symbol subtree pulled from the chunk
    /// store (`Splice`, falling back to fresh generation when the store
    /// has none) or freshly generated (`Regenerate`); when the picked node
    /// is a terminal leaf its payload bytes are rewritten instead. The
    /// result is well formed and roots the same symbol as the input.
    pub fn mutate(
        &self,
        ctx: &Context,
        store: &crate::chunkstore::ChunkStore,
        strategy: MutationStrategy,
        rng: &mut Rng,
    ) -> (t: Tree)
        requires
            ctx.wf(),
            store.wf(*ctx),
            wf_sub(ctx.rules_seq(), self@),
            self@.len() + SIZE_CAP <= usize::MAX,
        ensures
            wf_sub(ctx.rules_seq(), t@),
            root_sym(ctx.rules_seq(), t@) == root_sym(ctx.rules_seq(), self@),
            t@.len() <= self@.len() + SIZE_CAP,
            (strategy == MutationStrategy::Regenerate && lit_sub(ctx.rules_seq(), self@))
                ==> lit_sub(ctx.rules_seq(), t@),
    {
        let ghost rv = ctx.rules_seq();
        let idx = rng.below(self.nodes.len());
        proof {
            lemma_node_at(rv, self@, idx as int);
        }
        match &self.nodes[idx] {
            Node::Leaf { bytes } => {
                if matches!(strategy, MutationStrategy::TerminalBytes) {
                    // Terminal byte mutation: rewrite the leaf's payload.
                    let n = bytes.len();
                    let mut nb: Vec<u8> = Vec::new();
                    for b in 0..n
                        invariant
                            nb@.len() == b,
                    {
                        let w = rng.next_word();
                        nb.push((w % 256) as u8);
                    }
                    let repl = Tree::from_nodes_one_leaf(nb);
                    match self.replace_subtree(ctx, idx, &repl) {
                        Ok(t) => t,
                        Err(_) => vstd::pervasive::unreached(),
                    }
                } else {
                    // A structural strategy drew a terminal leaf, which
                    // roots no symbol: the tree is returned unchanged.
                    let n = self.nodes.len();
                    let copy = Tree { nodes: copy_range(&self.nodes, 0, n) };
                    proof {
                        assert(copy@ =~= self@);
                    }
                    copy
                }
            },
            Node::Apply { rule, len } => {
                proof {
                    let slice = self@.subrange(idx as int, idx + n_len(self@[idx as int]));
                    assert(wf_sub(rv, slice));
                    assert(slice[0] == self@[idx as int]);
                }
                let sym = ctx.rules[*rule].nonterm;
                let sub_len = *len;
                let budget = if sub_len <= SIZE_CAP {
                    sub_len
                } else {
                    SIZE_CAP
                };
                let sampled: Option<Tree> = match strategy {
                    MutationStrategy::Splice => store.sample(sym, rng),
                    _ => None,
                };
                let repl: Tree = match sampled {
                    Some(t) => {
                        proof {
                            let j = choose|j: int|
                                0 <= j < store.entries@[sym as int]@.len() && (
                                #[trigger] store.entries@[sym as int]@[j])@ == t@;
                        }
                        if t.nodes.len() <= SIZE_CAP {
                            t
                        } else {
                            generate(ctx, sym, budget, rng)
                        }
                    },
                    None => generate(ctx, sym, budget, rng),
                };
                proof {
                    if root_sym(rv, repl@) == sym as int {
                        assert(repl@[0] matches NodeV::Apply { .. });
                    }
                }
                match self.replace_subtree(ctx, idx, &repl) {
                    Ok(t) => t,
                    Err(_) => vstd::pervasive::unreached(),
                }
            },
        }
    }

    /// Wraps one fresh leaf in a tree.
    fn from_nodes_one_leaf(bytes: Vec<u8>) -> (t: Tree)
        ensures
            t@ =~= seq![NodeV::Leaf { bytes: bytes@ }],
    {
        let mut nodes: Vec<Node> = Vec::new();
        nodes.push(Node::Leaf { bytes });
        Tree { nodes }
    }

    /// Recombination with a sibling tree: picks a node of `self` at
    /// random, finds a subtree of `other` rooted at the same symbol, and
    /// splices it in; when `other` has no same-symbol subtree the result
    /// is an unchanged copy.
    pub fn recombine(&self, ctx: &Context, other: &Tree, rng: &mut Rng) -> (t: Tree)
        requires
            ctx.wf(),
            wf_sub(ctx.rules_seq(), self@),
            wf_sub(ctx.rules_seq(), other@),
            self@.len() + other@.len() <= usize::MAX,
        ensures
            wf_sub(ctx.rules_seq(), t@),
            root_sym(ctx.rules_seq(), t@) == root_sym(ctx.rules_seq(), self@),
            (lit_sub(ctx.rules_seq(), self@) && lit_sub(ctx.rules_seq(), other@)) ==> lit_sub(
                ctx.rules_seq(),
                t@,
            ),
    {
        let ghost rv = ctx.rules_seq();
        let idx = rng.below(self.nodes.len());
        proof {
            lemma_node_at(rv, self@, idx as int);
            assert(wf_sub(rv, self@.subrange(idx as int, idx + n_len(self@[idx as int]))));
        }
        let picked_sym: Option<usize> = match &self.nodes[idx] {
            Node::Leaf { .. } => None,
            Node::Apply { rule, .. } => Some(ctx.rules[*rule].nonterm),
        };
        if let Some(sym) = picked_sym {
            let n_other = other.nodes.len();
            for o in 0..n_other
                invariant
                    ctx.wf(),
                    rv == ctx.rules_seq(),
                    wf_sub(rv, self@),
                    wf_sub(rv, other@),
                    self@.len() + other@.len() <= usize::MAX,
                    idx < self@.len(),
                    n_other == other.nodes@.len(),
                    n_other == other@.len(),
                    self@[idx as int] matches NodeV::Apply { rule, .. } && 0 <= rule < rv.len()
                        && rv[rule].nonterm == sym as int,
            {
                proof {
                    lemma_node_at(rv, other@, o as int);
                }
                let hit: Option<usize> = match &other.nodes[o] {
                    Node::Leaf { .. } => None,
                    Node::Apply { rule, len } => {
                        proof {
                            let oslice = other@.subrange(o as int, o + n_len(other@[o as int]));
                            assert(wf_sub(rv, oslice));
                            assert(oslice[0] == other@[o as int]);
                        }
                        if ctx.rules[*rule].nonterm == sym {
                            Some(*len)
                        } else {
                            None
                        }
                    },
                };
                if let Some(olen) = hit {
                    let sub = copy_range(&other.nodes, o, o + olen);
                    let repl = Tree { nodes: sub };
                    proof {
                        assert(repl@ =~= other@.subrange(o as int, o + n_len(other@[o as int])));
                        if lit_sub(rv, self@) && lit_sub(rv, other@) {
                            lemma_lit_node_at(rv, other@, o as int);
                        }
                    }
                    return match self.replace_subtree(ctx, idx, &repl) {
                        Ok(t) => t,
                        Err(_) => vstd::pervasive::unreached(),
                    };
                }
            }
        }
        let n = self.nodes.len();
        let copy = Tree { nodes: copy_range(&self.nodes, 0, n) };
        proof {
            assert(copy@ =~= self@);
        }
        copy
    }

    /// Proposes a minimization candidate for the subtree at `node_index`:
    /// a strictly smaller same-symbol replacement, preferring the smallest
    /// matching chunk the store holds and falling back to the symbol's
    /// minimum-size derivation; nothing when the subtree cannot shrink
    /// this way. Acceptance is judged externally — the surrounding loop
    /// re-executes the candidate and keeps it only when the target
    /// behavior reproduces — and this routine never mutates the input
    /// tree, so a rejected candidate costs nothing.
    pub fn propose_minimization(
        &self,
        ctx: &Context,
        store: &crate::chunkstore::ChunkStore,
        node_index: usize,
        rng: &mut Rng,
    ) -> (r: Option<Tree>)
        requires
            ctx.wf(),
            store.wf(*ctx),
            wf_sub(ctx.rules_seq(), self@),
            node_index < self@.len(),
            self@.len() + SIZE_CAP <= usize::MAX,
        ensures
            match r {
                Some(t) => {
                    &&& wf_sub(ctx.rules_seq(), t@)
                    &&& root_sym(ctx.rules_seq(), t@) == root_sym(ctx.rules_seq(), self@)
                    &&& t@.len() < self@.len()
                },
                None => match self@[node_index as int] {
                    NodeV::Leaf { .. } => true,
                    NodeV::Apply { rule, .. } => n_len(self@[node_index as int]) <= ctx.sizes()[
                        ctx.rules_seq()[rule].nonterm
                    ],
                },
            },
    {
        let ghost rv = ctx.rules_seq();
        proof {
            lemma_node_at(rv, self@, node_index as int);
            assert(wf_sub(
                rv,
                self@.subrange(node_index as int, node_index + n_len(self@[node_index as int])),
            ));
        }
        let (rule_id, sub_len): (usize, usize) = match &self.nodes[node_index] {
            Node::Leaf { .. } => {
                return None;
            },
            Node::Apply { rule, len } => (*rule, *len),
        };
        proof {
            let slice = self@.subrange(
                node_index as int,
                node_index + n_len(self@[node_index as int]),
            );
            assert(slice[0] == self@[node_index as int]);
        }
        let sym = ctx.rules[rule_id].nonterm;
        // The smallest stored chunk for this symbol, if it beats the
        // current subtree.
        let mut best: Option<usize> = None;
        let n_list = if sym < store.entries.len() {
            store.entries[sym].len()
        } else {
            0
        };
        for j in 0..n_list
            invariant
                store.wf(*ctx),
                (sym as int) < store.entries@.len() || n_list == 0,
                n_list > 0 ==> n_list == store.entries@[sym as int]@.len(),
                match best {
                    Some(b) => {
                        &&& (b as int) < store.entries@[sym as int]@.len()
                        &&& (sym as int) < store.entries@.len()
                    },
                    None => true,
                },
        {
            let cand_len = store.entries[sym][j].nodes.len();
            let better = match best {
                None => true,
                Some(b) => cand_len < store.entries[sym][b].nodes.len(),
            };
            if better {
                best = Some(j);
            }
        }
        if let Some(b) = best {
            let src = &store.entries[sym][b];
            if src.nodes.len() < sub_len && src.nodes.len() <= SIZE_CAP {
                let len = src.nodes.len();
                let repl = Tree { nodes: copy_range(&src.nodes, 0, len) };
                proof {
                    assert(repl@ =~= (store.entries@[sym as int]@[b as int])@);
                }
                return match self.replace_subtree(ctx, node_index, &repl) {
                    Ok(t) => Some(t),
                    Err(_) => vstd::pervasive::unreached(),
                };
            }
        }
        // Fall back to the minimum derivation when it is strictly smaller.
        let min_s = ctx.min_size(sym);
        if min_s < sub_len {
            let repl = generate(ctx, sym, min_s, rng);
            return match self.replace_subtree(ctx, node_index, &repl) {
                Ok(t) => Some(t),
                Err(_) => vstd::pervasive::unreached(),
            };
        }
        None
    }
}

} // verus!
