//! Grammar context: the symbol and rule tables, plus the derived
//! minimum-tree-size table that keeps generation finite.
//!
//! Symbols are interned to small integers `0 .. n_syms`. A rule belongs to
//! one nonterminal and is an ordered sequence of slots, each slot a literal
//! byte fragment or a reference to a nonterminal. The context is immutable
//! after `load`, which rejects grammars containing a nonterminal that cannot
//! derive any finite tree.
use vstd::prelude::*;
use crate::GrammarError;

verus! {

/// Minimum tree sizes at or above this bound are treated as unbounded: a
/// grammar whose smallest tree for some symbol would reach it is rejected.
pub const SIZE_CAP: usize = 0x1000_0000;

/// One slot of a production rule.
#[derive(Debug)]
pub enum Slot {
    /// A fixed terminal byte fragment, copied into a leaf node.
    Literal(Vec<u8>),
    /// A reference to a nonterminal symbol, expanded into a subtree.
    NonTerm(usize),
}

/// Mathematical image of a [`Slot`].
pub enum SlotV {
    /// Literal bytes as a sequence.
    Literal(Seq<u8>),
    /// Nonterminal symbol id.
    NonTerm(int),
}

impl View for Slot {
    type V = SlotV;

    open spec fn view(&self) -> SlotV {
        match self {
            Slot::Literal(b) => SlotV::Literal(b@),
            Slot::NonTerm(s) => SlotV::NonTerm(*s as int),
        }
    }
}

/// One production alternative owned by a nonterminal.
#[derive(Debug)]
pub struct Rule {
    /// The nonterminal this rule produces.
    pub nonterm: usize,
    /// The ordered slot sequence of the rule's right-hand side.
    pub slots: Vec<Slot>,
}

/// Mathematical image of a [`Rule`].
pub struct RuleV {
    /// The nonterminal this rule produces.
    pub nonterm: int,
    /// The ordered slot sequence.
    pub slots: Seq<SlotV>,
}

impl View for Rule {
    type V = RuleV;

    open spec fn view(&self) -> RuleV {
        RuleV { nonterm: self.nonterm as int, slots: self.slots@.map_values(|s: Slot| s@) }
    }
}

/// A slot is well formed when any nonterminal it references is in range.
pub open spec fn slot_wf(s: SlotV, n_syms: int) -> bool {
    match s {
        SlotV::Literal(_) => true,
        SlotV::NonTerm(m) => 0 <= m < n_syms,
    }
}

/// A rule is well formed when its owner and every slot reference are in range.
pub open spec fn rule_wf(r: RuleV, n_syms: int) -> bool {
    &&& 0 <= r.nonterm < n_syms
    &&& forall|k: int| 0 <= k < r.slots.len() ==> slot_wf(#[trigger] r.slots[k], n_syms)
}

/// Size contribution of one slot under a size table: a literal costs one
/// leaf node, a nonterminal costs that symbol's table entry.
pub open spec fn slot_cost(s: SlotV, sizes: Seq<int>) -> int {
    match s {
        SlotV::Literal(_) => 1,
        SlotV::NonTerm(m) => sizes[m],
    }
}

/// Number of nodes of the smallest tree a rule with these slots can
/// produce, given a table of minimum sizes per nonterminal: one node for
/// the rule application plus the cost of every slot, saturating at
/// [`SIZE_CAP`].
pub open spec fn rule_cost(slots: Seq<SlotV>, sizes: Seq<int>) -> int
    decreases slots.len(),
{
    if slots.len() == 0 {
        1
    } else {
        let c = rule_cost(slots.drop_last(), sizes) + slot_cost(slots.last(), sizes);
        if c >= SIZE_CAP as int {
            SIZE_CAP as int
        } else {
            c
        }
    }
}

/// The unsaturated sum of slot costs.
pub open spec fn slot_sum(slots: Seq<SlotV>, sizes: Seq<int>) -> int
    decreases slots.len(),
{
    if slots.len() == 0 {
        0
    } else {
        slot_sum(slots.drop_last(), sizes) + slot_cost(slots.last(), sizes)
    }
}

/// With every slot cost nonnegative, the saturating rule cost is exactly
/// the unsaturated cost clipped at [`SIZE_CAP`], and it stays at least 1.
pub proof fn lemma_rule_cost_sum(slots: Seq<SlotV>, sizes: Seq<int>)
    requires
        forall|k: int| 0 <= k < slots.len() ==> slot_cost(#[trigger] slots[k], sizes) >= 0,
    ensures
        rule_cost(slots, sizes) == if 1 + slot_sum(slots, sizes) >= SIZE_CAP as int {
            SIZE_CAP as int
        } else {
            1 + slot_sum(slots, sizes)
        },
        1 <= rule_cost(slots, sizes) <= SIZE_CAP as int,
        slot_sum(slots, sizes) >= 0,
    decreases slots.len(),
{
    if slots.len() > 0 {
        lemma_rule_cost_sum(slots.drop_last(), sizes);
    }
}

/// Every single slot's cost is bounded by the whole unsaturated sum, as
/// long as every slot cost is nonnegative.
pub proof fn lemma_slot_sum_member(slots: Seq<SlotV>, sizes: Seq<int>, k: int)
    requires
        forall|j: int| 0 <= j < slots.len() ==> slot_cost(#[trigger] slots[j], sizes) >= 0,
        0 <= k < slots.len(),
    ensures
        slot_cost(slots[k], sizes) <= slot_sum(slots, sizes),
    decreases slots.len(),
{
    lemma_rule_cost_sum(slots.drop_last(), sizes);
    if k < slots.len() - 1 {
        lemma_slot_sum_member(slots.drop_last(), sizes, k);
    }
}

/// Rule cost is monotone in the size table.
pub proof fn lemma_rule_cost_monotone(slots: Seq<SlotV>, s1: Seq<int>, s2: Seq<int>)
    requires
        s1.len() == s2.len(),
        forall|i: int| 0 <= i < s1.len() ==> s1[i] <= #[trigger] s2[i],
        forall|k: int| 0 <= k < slots.len() ==> slot_wf(#[trigger] slots[k], s1.len() as int),
    ensures
        rule_cost(slots, s1) <= rule_cost(slots, s2),
    decreases slots.len(),
{
    if slots.len() > 0 {
        lemma_rule_cost_monotone(slots.drop_last(), s1, s2);
    }
}

/// The rule table of an executable rule vector, as mathematical rules.
pub open spec fn rules_view(rules: Seq<Rule>) -> Seq<RuleV> {
    rules.map_values(|x: Rule| x@)
}

/// Whether some rule in the table produces the nonterminal `s`.
pub open spec fn has_rule(rules: Seq<RuleV>, s: int) -> bool {
    exists|i: int| 0 <= i < rules.len() && (#[trigger] rules[i]).nonterm == s
}

/// Whether the nonterminal `s` cannot be finitely instantiated: every
/// well-formed derivation tree rooted at it would need at least
/// [`SIZE_CAP`] nodes.
pub open spec fn unproductive(rules: Seq<RuleV>, s: int) -> bool {
    forall|t: Seq<crate::tree::NodeV>|
        (#[trigger] crate::tree::wf_sub(rules, t)) && crate::tree::root_sym(rules, t) == s
            ==> t.len() >= SIZE_CAP as int
}

/// A size table as a sequence of integers.
pub open spec fn int_view(sizes: Seq<usize>) -> Seq<int> {
    sizes.map_values(|x: usize| x as int)
}

/// Smallest tree size the rule `r` can produce under the current table,
/// saturating at [`SIZE_CAP`].
pub(crate) fn cost_of(rules: &Vec<Rule>, r: usize, sizes: &Vec<usize>) -> (c: usize)
    requires
        r < rules@.len(),
        rule_wf(rules_view(rules@)[r as int], sizes@.len() as int),
        forall|i: int| 0 <= i < sizes@.len() ==> 1 <= #[trigger] sizes@[i] <= SIZE_CAP,
    ensures
        c == rule_cost(rules_view(rules@)[r as int].slots, int_view(sizes@)),
        1 <= c <= SIZE_CAP,
{
    let rule = &rules[r];
    let ghost rv = rules_view(rules@)[r as int];
    let ghost iz = int_view(sizes@);
    let n_slots = rule.slots.len();
    let mut acc: usize = 1;
    for k in 0..n_slots
        invariant
            n_slots == rule.slots@.len(),
            rv == rules_view(rules@)[r as int],
            iz == int_view(sizes@),
            r < rules@.len(),
            rule == rules@[r as int],
            rule_wf(rv, sizes@.len() as int),
            forall|i: int| 0 <= i < sizes@.len() ==> 1 <= #[trigger] sizes@[i] <= SIZE_CAP,
            acc == rule_cost(rv.slots.take(k as int), iz),
            1 <= acc <= SIZE_CAP,
    {
        proof {
            assert(rv.slots[k as int] == rule.slots@[k as int]@);
        }
        let c: usize = match &rule.slots[k] {
            Slot::Literal(_) => 1,
            Slot::NonTerm(m) => sizes[*m],
        };
        proof {
            assert(c == slot_cost(rv.slots[k as int], iz));
            assert(rv.slots.take(k as int + 1).drop_last() =~= rv.slots.take(k as int));
            assert(rv.slots.take(k as int + 1).last() == rv.slots[k as int]);
        }
        acc = if acc + c >= SIZE_CAP {
            SIZE_CAP
        } else {
            acc + c
        };
    }
    proof {
        assert(rv.slots.take(n_slots as int) =~= rv.slots);
    }
    acc
}

/// Height of the smallest tree a rule with these slots can produce, given
/// a table of minimum tree heights per nonterminal: one level for the rule
/// application over the tallest of its slots (a literal slot is one leaf
/// level, a nonterminal slot that symbol's table entry), saturating at
/// [`SIZE_CAP`].
pub open spec fn depth_cost(slots: Seq<SlotV>, depths: Seq<int>) -> int
    decreases slots.len(),
{
    if slots.len() == 0 {
        1
    } else {
        let rest = depth_cost(slots.drop_last(), depths);
        let c = 1 + (match slots.last() {
            SlotV::Literal(_) => 1int,
            SlotV::NonTerm(m) => depths[m],
        });
        let h = if c > rest {
            c
        } else {
            rest
        };
        if h >= SIZE_CAP as int {
            SIZE_CAP as int
        } else {
            h
        }
    }
}

/// The unsaturated form of [`depth_cost`]: the tallest slot's minimum
/// height plus the rule's own level, at least 1.
pub open spec fn slot_hmax(slots: Seq<SlotV>, depths: Seq<int>) -> int
    decreases slots.len(),
{
    if slots.len() == 0 {
        1
    } else {
        let rest = slot_hmax(slots.drop_last(), depths);
        let c = 1 + (match slots.last() {
            SlotV::Literal(_) => 1int,
            SlotV::NonTerm(m) => depths[m],
        });
        if c > rest {
            c
        } else {
            rest
        }
    }
}

/// The saturating depth cost is exactly the unsaturated height clipped at
/// [`SIZE_CAP`].
pub proof fn lemma_depth_cost_hmax(slots: Seq<SlotV>, depths: Seq<int>)
    ensures
        depth_cost(slots, depths) == if slot_hmax(slots, depths) >= SIZE_CAP as int {
            SIZE_CAP as int
        } else {
            slot_hmax(slots, depths)
        },
        slot_hmax(slots, depths) >= 1,
    decreases slots.len(),
{
    if slots.len() > 0 {
        lemma_depth_cost_hmax(slots.drop_last(), depths);
    }
}

/// The unsaturated height decomposes from the front as well as from the
/// back.
pub proof fn lemma_slot_hmax_front(slots: Seq<SlotV>, depths: Seq<int>)
    requires
        slots.len() >= 1,
    ensures
        slot_hmax(slots, depths) == {
            let c = 1 + (match slots[0] {
                SlotV::Literal(_) => 1int,
                SlotV::NonTerm(m) => depths[m],
            });
            let rest = slot_hmax(slots.drop_first(), depths);
            if c > rest {
                c
            } else {
                rest
            }
        },
    decreases slots.len(),
{
    if slots.len() == 1 {
        assert(slots.drop_first() =~= Seq::<SlotV>::empty());
        assert(slots.drop_last() =~= Seq::<SlotV>::empty());
    } else {
        lemma_slot_hmax_front(slots.drop_last(), depths);
        assert(slots.drop_last().drop_first() =~= slots.drop_first().drop_last());
        assert(slots.drop_last()[0] == slots[0]);
        assert(slots.drop_first().last() == slots.last());
    }
}

/// Depth cost is monotone in the height table, and bounded.
pub proof fn lemma_depth_cost_monotone(slots: Seq<SlotV>, d1: Seq<int>, d2: Seq<int>)
    requires
        d1.len() == d2.len(),
        forall|i: int| 0 <= i < d1.len() ==> d1[i] <= #[trigger] d2[i],
        forall|k: int| 0 <= k < slots.len() ==> slot_wf(#[trigger] slots[k], d1.len() as int),
    ensures
        depth_cost(slots, d1) <= depth_cost(slots, d2),
    decreases slots.len(),
{
    if slots.len() > 0 {
        lemma_depth_cost_monotone(slots.drop_last(), d1, d2);
    }
}

/// Total of a size table, the termination measure of the fixed point.
pub open spec fn table_sum(s: Seq<usize>) -> int
    decreases s.len(),
{
    if s.len() == 0 {
        0
    } else {
        table_sum(s.drop_last()) + s.last()
    }
}

/// A pointwise lower table has a lower total, strictly if any entry is
/// strictly lower.
pub proof fn lemma_table_sum_le(a: Seq<usize>, b: Seq<usize>)
    requires
        a.len() == b.len(),
        forall|i: int| 0 <= i < a.len() ==> #[trigger] a[i] <= b[i],
    ensures
        table_sum(a) <= table_sum(b),
        (exists|i: int| 0 <= i < a.len() && #[trigger] a[i] < b[i]) ==> table_sum(a) < table_sum(
            b,
        ),
        table_sum(a) >= 0,
        table_sum(b) >= 0,
    decreases a.len(),
{
    if a.len() > 0 {
        lemma_table_sum_le(a.drop_last(), b.drop_last());
        if exists|i: int| 0 <= i < a.len() && #[trigger] a[i] < b[i] {
            let i = choose|i: int| 0 <= i < a.len() && #[trigger] a[i] < b[i];
            if i < a.len() - 1 {
                assert(a.drop_last()[i] < b.drop_last()[i]);
            }
        }
    }
}

/// Smallest tree height the rule `r` can produce under the current height
/// table, saturating at [`SIZE_CAP`].
fn dcost_of(rules: &Vec<Rule>, r: usize, depths: &Vec<usize>) -> (c: usize)
    requires
        r < rules@.len(),
        rule_wf(rules_view(rules@)[r as int], depths@.len() as int),
        forall|i: int| 0 <= i < depths@.len() ==> 1 <= #[trigger] depths@[i] <= SIZE_CAP,
    ensures
        c == depth_cost(rules_view(rules@)[r as int].slots, int_view(depths@)),
        1 <= c <= SIZE_CAP,
{
    let rule = &rules[r];
    let ghost rv = rules_view(rules@)[r as int];
    let ghost iz = int_view(depths@);
    let n_slots = rule.slots.len();
    let mut acc: usize = 1;
    for k in 0..n_slots
        invariant
            n_slots == rule.slots@.len(),
            rv == rules_view(rules@)[r as int],
            iz == int_view(depths@),
            r < rules@.len(),
            rule == rules@[r as int],
            rule_wf(rv, depths@.len() as int),
            forall|i: int| 0 <= i < depths@.len() ==> 1 <= #[trigger] depths@[i] <= SIZE_CAP,
            acc == depth_cost(rv.slots.take(k as int), iz),
            1 <= acc <= SIZE_CAP,
    {
        proof {
            assert(rv.slots[k as int] == rule.slots@[k as int]@);
        }
        let c: usize = 1 + match &rule.slots[k] {
            Slot::Literal(_) => 1,
            Slot::NonTerm(m) => depths[*m],
        };
        proof {
            assert(rv.slots.take(k as int + 1).drop_last() =~= rv.slots.take(k as int));
            assert(rv.slots.take(k as int + 1).last() == rv.slots[k as int]);
        }
        let h = if c > acc {
            c
        } else {
            acc
        };
        acc = if h >= SIZE_CAP {
            SIZE_CAP
        } else {
            h
        };
    }
    proof {
        assert(rv.slots.take(n_slots as int) =~= rv.slots);
    }
    acc
}

/// Fixed-point pass over the rule graph: starting from "unbounded"
/// everywhere, repeatedly lower each nonterminal's entry to the cheapest
/// rule cost under the current table, until nothing changes. The grammar's
/// symbol graph may contain cycles; the iteration still converges because
/// entries only decrease and are bounded below.
fn fixpoint_sizes(n_syms: usize, rules: &Vec<Rule>) -> (sizes: Vec<usize>)
    requires
        n_syms >= 1,
        forall|i: int|
            0 <= i < rules@.len() ==> rule_wf(#[trigger] rules_view(rules@)[i], n_syms as int),
    ensures
        sizes@.len() == n_syms,
        forall|i: int| 0 <= i < n_syms ==> 1 <= #[trigger] sizes@[i] <= SIZE_CAP,
        forall|r: int|
            0 <= r < rules@.len() ==> int_view(sizes@)[#[trigger] rules_view(
                rules@,
            )[r].nonterm] <= rule_cost(rules_view(rules@)[r].slots, int_view(sizes@)),
        forall|s: int|
            0 <= s < n_syms && #[trigger] sizes@[s] < SIZE_CAP ==> exists|r: int|
                0 <= r < rules@.len() && rules_view(rules@)[r].nonterm == s && int_view(
                    sizes@,
                )[s] >= rule_cost(#[trigger] rules_view(rules@)[r].slots, int_view(sizes@)),
{
    let ghost rv = rules_view(rules@);
    let n_rules = rules.len();
    let mut sizes: Vec<usize> = Vec::new();
    for s in 0..n_syms
        invariant
            sizes@.len() == s,
            forall|i: int| 0 <= i < s ==> #[trigger] sizes@[i] == SIZE_CAP,
    {
        sizes.push(SIZE_CAP);
    }
    let mut changed = true;
    while changed
        invariant
            n_rules == rules@.len(),
            rv == rules_view(rules@),
            n_syms >= 1,
            forall|i: int| 0 <= i < n_rules ==> rule_wf(#[trigger] rv[i], n_syms as int),
            sizes@.len() == n_syms,
            forall|i: int| 0 <= i < n_syms ==> 1 <= #[trigger] sizes@[i] <= SIZE_CAP,
            forall|s: int|
                0 <= s < n_syms && #[trigger] sizes@[s] < SIZE_CAP ==> exists|r: int|
                    0 <= r < n_rules && rv[r].nonterm == s && int_view(sizes@)[s] >= rule_cost(
                        #[trigger] rv[r].slots,
                        int_view(sizes@),
                    ),
            !changed ==> forall|r: int|
                0 <= r < n_rules ==> int_view(sizes@)[#[trigger] rv[r].nonterm] <= rule_cost(
                    rv[r].slots,
                    int_view(sizes@),
                ),
        decreases table_sum(sizes@), (if changed { 1int } else { 0int }),
    {
        let ghost old_sizes = sizes@;
        let mut new_sizes: Vec<usize> = Vec::new();
        let mut any_change = false;
        for s in 0..n_syms
            invariant
                n_rules == rules@.len(),
                rv == rules_view(rules@),
                forall|i: int| 0 <= i < n_rules ==> rule_wf(#[trigger] rv[i], n_syms as int),
                old_sizes == sizes@,
                sizes@.len() == n_syms,
                forall|i: int| 0 <= i < n_syms ==> 1 <= #[trigger] sizes@[i] <= SIZE_CAP,
                forall|s2: int|
                    0 <= s2 < n_syms && #[trigger] sizes@[s2] < SIZE_CAP ==> exists|r: int|
                        0 <= r < n_rules && rv[r].nonterm == s2 && int_view(sizes@)[s2]
                            >= rule_cost(#[trigger] rv[r].slots, int_view(sizes@)),
                new_sizes@.len() == s,
                forall|i: int| 0 <= i < s ==> 1 <= #[trigger] new_sizes@[i] <= SIZE_CAP,
                forall|i: int| 0 <= i < s ==> #[trigger] new_sizes@[i] <= sizes@[i],
                forall|r: int|
                    0 <= r < n_rules && 0 <= rv[r].nonterm < s ==> int_view(
                        new_sizes@,
                    )[rv[r].nonterm] <= rule_cost(#[trigger] rv[r].slots, int_view(sizes@)),
                forall|s2: int|
                    0 <= s2 < s && #[trigger] new_sizes@[s2] < SIZE_CAP ==> exists|r: int|
                        0 <= r < n_rules && rv[r].nonterm == s2 && int_view(new_sizes@)[s2]
                            >= rule_cost(#[trigger] rv[r].slots, int_view(sizes@)),
                any_change <==> exists|i: int| 0 <= i < s && #[trigger] new_sizes@[i] != sizes@[i],
        {
            let mut best: usize = sizes[s];
            for r in 0..n_rules
                invariant
                    n_rules == rules@.len(),
                    rv == rules_view(rules@),
                    forall|i: int| 0 <= i < n_rules ==> rule_wf(#[trigger] rv[i], n_syms as int),
                    sizes@.len() == n_syms,
                    s < n_syms,
                    forall|i: int| 0 <= i < n_syms ==> 1 <= #[trigger] sizes@[i] <= SIZE_CAP,
                    1 <= best <= SIZE_CAP,
                    best <= sizes@[s as int],
                    best == sizes@[s as int] || exists|r2: int|
                        0 <= r2 < n_rules && rv[r2].nonterm == s as int && best as int == rule_cost(
                            #[trigger] rv[r2].slots,
                            int_view(sizes@),
                        ),
                    forall|r2: int|
                        0 <= r2 < r && rv[r2].nonterm == s as int ==> best as int <= rule_cost(
                            #[trigger] rv[r2].slots,
                            int_view(sizes@),
                        ),
            {
                if rules[r].nonterm == s {
                    let c = cost_of(rules, r, &sizes);
                    if c < best {
                        best = c;
                    }
                }
            }
            let ghost pre_push = new_sizes@;
            if best != sizes[s] {
                any_change = true;
            }
            new_sizes.push(best);
            proof {
                assert(new_sizes@ == pre_push.push(best));
                assert(new_sizes@[s as int] == best);
                assert forall|i: int| 0 <= i < s implies #[trigger] new_sizes@[i] == pre_push[i]
                by {}
                if best != sizes@[s as int] {
                    assert(new_sizes@[s as int] != sizes@[s as int]);
                } else {
                    if exists|i: int| 0 <= i < s + 1 && #[trigger] new_sizes@[i] != sizes@[i] {
                        let i = choose|i: int|
                            0 <= i < s + 1 && #[trigger] new_sizes@[i] != sizes@[i];
                        assert(i < s);
                        assert(pre_push[i] != sizes@[i]);
                    }
                    if any_change {
                        let j = choose|j: int| 0 <= j < s && #[trigger] pre_push[j] != sizes@[j];
                        assert(new_sizes@[j] != sizes@[j]);
                    }
                }
                if best < SIZE_CAP {
                    if best == sizes@[s as int] {
                        assert(sizes@[s as int] < SIZE_CAP);
                        let r = choose|r: int|
                            0 <= r < n_rules && rv[r].nonterm == s as int && int_view(
                                sizes@,
                            )[s as int] >= rule_cost(#[trigger] rv[r].slots, int_view(sizes@));
                        assert(int_view(new_sizes@)[s as int] >= rule_cost(
                            rv[r].slots,
                            int_view(sizes@),
                        ));
                    } else {
                        let r2 = choose|r2: int|
                            0 <= r2 < n_rules && rv[r2].nonterm == s as int && best as int
                                == rule_cost(#[trigger] rv[r2].slots, int_view(sizes@));
                        assert(int_view(new_sizes@)[s as int] >= rule_cost(
                            rv[r2].slots,
                            int_view(sizes@),
                        ));
                    }
                }
            }
        }
        proof {
            if !any_change {
                assert(new_sizes@ =~= sizes@);
            } else {
                assert forall|s2: int|
                    0 <= s2 < n_syms && #[trigger] new_sizes@[s2] < SIZE_CAP implies exists|r: int|
                    0 <= r < n_rules && rv[r].nonterm == s2 && int_view(new_sizes@)[s2]
                        >= rule_cost(#[trigger] rv[r].slots, int_view(new_sizes@)) by {
                    let r = choose|r: int|
                        0 <= r < n_rules && rv[r].nonterm == s2 && int_view(new_sizes@)[s2]
                            >= rule_cost(rv[r].slots, int_view(sizes@));
                    lemma_rule_cost_monotone(rv[r].slots, int_view(new_sizes@), int_view(sizes@));
                    assert(int_view(new_sizes@)[s2] >= rule_cost(
                        rv[r].slots,
                        int_view(new_sizes@),
                    ));
                }
            }
        }
        if any_change {
            proof {
                let i = choose|i: int| 0 <= i < n_syms && #[trigger] new_sizes@[i] != sizes@[i];
                assert(new_sizes@[i] < sizes@[i]);
                lemma_table_sum_le(new_sizes@, sizes@);
            }
            sizes = new_sizes;
            changed = true;
        } else {
            proof {
                lemma_table_sum_le(sizes@, sizes@);
            }
            changed = false;
        }
    }
    sizes
}

/// The same fixed-point iteration for minimum tree heights: each pass
/// lowers a nonterminal's entry to the cheapest rule's depth cost under
/// the current table, until nothing changes.
fn fixpoint_depths(n_syms: usize, rules: &Vec<Rule>) -> (depths: Vec<usize>)
    requires
        n_syms >= 1,
        forall|i: int|
            0 <= i < rules@.len() ==> rule_wf(#[trigger] rules_view(rules@)[i], n_syms as int),
    ensures
        depths@.len() == n_syms,
        forall|i: int| 0 <= i < n_syms ==> 1 <= #[trigger] depths@[i] <= SIZE_CAP,
        forall|r: int|
            0 <= r < rules@.len() ==> int_view(depths@)[#[trigger] rules_view(
                rules@,
            )[r].nonterm] <= depth_cost(rules_view(rules@)[r].slots, int_view(depths@)),
        forall|s: int|
            0 <= s < n_syms && #[trigger] depths@[s] < SIZE_CAP ==> exists|r: int|
                0 <= r < rules@.len() && rules_view(rules@)[r].nonterm == s && int_view(
                    depths@,
                )[s] >= depth_cost(#[trigger] rules_view(rules@)[r].slots, int_view(depths@)),
{
    let ghost rv = rules_view(rules@);
    let n_rules = rules.len();
    let mut depths: Vec<usize> = Vec::new();
    for s in 0..n_syms
        invariant
            depths@.len() == s,
            forall|i: int| 0 <= i < s ==> #[trigger] depths@[i] == SIZE_CAP,
    {
        depths.push(SIZE_CAP);
    }
    let mut changed = true;
    while changed
        invariant
            n_rules == rules@.len(),
            rv == rules_view(rules@),
            n_syms >= 1,
            forall|i: int| 0 <= i < n_rules ==> rule_wf(#[trigger] rv[i], n_syms as int),
            depths@.len() == n_syms,
            forall|i: int| 0 <= i < n_syms ==> 1 <= #[trigger] depths@[i] <= SIZE_CAP,
            forall|s: int|
                0 <= s < n_syms && #[trigger] depths@[s] < SIZE_CAP ==> exists|r: int|
                    0 <= r < n_rules && rv[r].nonterm == s && int_view(depths@)[s] >= depth_cost(
                        #[trigger] rv[r].slots,
                        int_view(depths@),
                    ),
            !changed ==> forall|r: int|
                0 <= r < n_rules ==> int_view(depths@)[#[trigger] rv[r].nonterm] <= depth_cost(
                    rv[r].slots,
                    int_view(depths@),
                ),
        decreases table_sum(depths@), (if changed { 1int } else { 0int }),
    {
        let ghost old_depths = depths@;
        let mut new_depths: Vec<usize> = Vec::new();
        let mut any_change = false;
        for s in 0..n_syms
            invariant
                n_rules == rules@.len(),
                rv == rules_view(rules@),
                forall|i: int| 0 <= i < n_rules ==> rule_wf(#[trigger] rv[i], n_syms as int),
                old_depths == depths@,
                depths@.len() == n_syms,
                forall|i: int| 0 <= i < n_syms ==> 1 <= #[trigger] depths@[i] <= SIZE_CAP,
                forall|s2: int|
                    0 <= s2 < n_syms && #[trigger] depths@[s2] < SIZE_CAP ==> exists|r: int|
                        0 <= r < n_rules && rv[r].nonterm == s2 && int_view(depths@)[s2]
                            >= depth_cost(#[trigger] rv[r].slots, int_view(depths@)),
                new_depths@.len() == s,
                forall|i: int| 0 <= i < s ==> 1 <= #[trigger] new_depths@[i] <= SIZE_CAP,
                forall|i: int| 0 <= i < s ==> #[trigger] new_depths@[i] <= depths@[i],
                forall|r: int|
                    0 <= r < n_rules && 0 <= rv[r].nonterm < s ==> int_view(
                        new_depths@,
                    )[rv[r].nonterm] <= depth_cost(#[trigger] rv[r].slots, int_view(depths@)),
                forall|s2: int|
                    0 <= s2 < s && #[trigger] new_depths@[s2] < SIZE_CAP ==> exists|r: int|
                        0 <= r < n_rules && rv[r].nonterm == s2 && int_view(new_depths@)[s2]
                            >= depth_cost(#[trigger] rv[r].slots, int_view(depths@)),
                any_change <==> exists|i: int| 0 <= i < s && #[trigger] new_depths@[i] != depths@[i],
        {
            let mut best: usize = depths[s];
            for r in 0..n_rules
                invariant
                    n_rules == rules@.len(),
                    rv == rules_view(rules@),
                    forall|i: int| 0 <= i < n_rules ==> rule_wf(#[trigger] rv[i], n_syms as int),
                    depths@.len() == n_syms,
                    s < n_syms,
                    forall|i: int| 0 <= i < n_syms ==> 1 <= #[trigger] depths@[i] <= SIZE_CAP,
                    1 <= best <= SIZE_CAP,
                    best <= depths@[s as int],
                    best == depths@[s as int] || exists|r2: int|
                        0 <= r2 < n_rules && rv[r2].nonterm == s as int && best as int == depth_cost(
                            #[trigger] rv[r2].slots,
                            int_view(depths@),
                        ),
                    forall|r2: int|
                        0 <= r2 < r && rv[r2].nonterm == s as int ==> best as int <= depth_cost(
                            #[trigger] rv[r2].slots,
                            int_view(depths@),
                        ),
            {
                if rules[r].nonterm == s {
                    let c = dcost_of(rules, r, &depths);
                    if c < best {
                        best = c;
                    }
                }
            }
            let ghost pre_push = new_depths@;
            if best != depths[s] {
                any_change = true;
            }
            new_depths.push(best);
            proof {
                assert(new_depths@ == pre_push.push(best));
                assert(new_depths@[s as int] == best);
                assert forall|i: int| 0 <= i < s implies #[trigger] new_depths@[i] == pre_push[i]
                by {}
                if best != depths@[s as int] {
                    assert(new_depths@[s as int] != depths@[s as int]);
                } else {
                    if exists|i: int| 0 <= i < s + 1 && #[trigger] new_depths@[i] != depths@[i] {
                        let i = choose|i: int|
                            0 <= i < s + 1 && #[trigger] new_depths@[i] != depths@[i];
                        assert(i < s);
                        assert(pre_push[i] != depths@[i]);
                    }
                    if any_change {
                        let j = choose|j: int| 0 <= j < s && #[trigger] pre_push[j] != depths@[j];
                        assert(new_depths@[j] != depths@[j]);
                    }
                }
                if best < SIZE_CAP {
                    if best == depths@[s as int] {
                        assert(depths@[s as int] < SIZE_CAP);
                        let r = choose|r: int|
                            0 <= r < n_rules && rv[r].nonterm == s as int && int_view(
                                depths@,
                            )[s as int] >= depth_cost(#[trigger] rv[r].slots, int_view(depths@));
                        assert(int_view(new_depths@)[s as int] >= depth_cost(
                            rv[r].slots,
                            int_view(depths@),
                        ));
                    } else {
                        let r2 = choose|r2: int|
                            0 <= r2 < n_rules && rv[r2].nonterm == s as int && best as int
                                == depth_cost(#[trigger] rv[r2].slots, int_view(depths@));
                        assert(int_view(new_depths@)[s as int] >= depth_cost(
                            rv[r2].slots,
                            int_view(depths@),
                        ));
                    }
                }
            }
        }
        proof {
            if !any_change {
                assert(new_depths@ =~= depths@);
            } else {
                assert forall|s2: int|
                    0 <= s2 < n_syms && #[trigger] new_depths@[s2] < SIZE_CAP implies exists|r: int|
                    0 <= r < n_rules && rv[r].nonterm == s2 && int_view(new_depths@)[s2]
                        >= depth_cost(#[trigger] rv[r].slots, int_view(new_depths@)) by {
                    let r = choose|r: int|
                        0 <= r < n_rules && rv[r].nonterm == s2 && int_view(new_depths@)[s2]
                            >= depth_cost(rv[r].slots, int_view(depths@));
                    lemma_depth_cost_monotone(rv[r].slots, int_view(new_depths@), int_view(depths@));
                    assert(int_view(new_depths@)[s2] >= depth_cost(
                        rv[r].slots,
                        int_view(new_depths@),
                    ));
                }
            }
        }
        if any_change {
            proof {
                let i = choose|i: int| 0 <= i < n_syms && #[trigger] new_depths@[i] != depths@[i];
                assert(new_depths@[i] < depths@[i]);
                lemma_table_sum_le(new_depths@, depths@);
            }
            depths = new_depths;
            changed = true;
        } else {
            proof {
                lemma_table_sum_le(depths@, depths@);
            }
            changed = false;
        }
    }
    depths
}


/// The grammar context: rule table, per-symbol rule index, and the derived
/// minimum-size/depth tables with, per symbol, one rule of minimum cost.
#[derive(Debug)]
pub struct Context {
    /// The full rule table; a rule id is an index into it.
    pub rules: Vec<Rule>,
    /// For each nonterminal, the ids of the rules it owns, in input order.
    pub rules_of: Vec<Vec<usize>>,
    /// For each nonterminal, the node count of its smallest derivable tree.
    pub min_size: Vec<usize>,
    /// For each nonterminal, the height of its smallest derivable tree.
    pub min_depth: Vec<usize>,
    /// For each nonterminal, a rule id whose cost equals `min_size`.
    pub min_rule: Vec<usize>,
}

impl Context {
    /// Number of interned symbols.
    pub open spec fn n_syms(self) -> int {
        self.rules_of@.len() as int
    }

    /// The rule table as a sequence of mathematical rules.
    pub open spec fn rules_seq(self) -> Seq<RuleV> {
        self.rules@.map_values(|r: Rule| r@)
    }

    /// The minimum-size table as a sequence of integers.
    pub open spec fn sizes(self) -> Seq<int> {
        self.min_size@.map_values(|x: usize| x as int)
    }

    /// The minimum-height table as a sequence of integers.
    pub open spec fn depths(self) -> Seq<int> {
        self.min_depth@.map_values(|x: usize| x as int)
    }

    /// The internal invariant established by `load` and relied on by
    /// generation: tables have matching lengths, all references are in
    /// range, every nonterminal owns at least one rule, each `min_rule`
    /// entry achieves exactly the `min_size` entry, and no rule can beat it.
    pub open spec fn wf(self) -> bool {
        let n = self.n_syms();
        &&& n >= 1
        &&& self.min_size@.len() == n
        &&& self.min_depth@.len() == n
        &&& self.min_rule@.len() == n
        &&& forall|r: int| 0 <= r < self.rules_seq().len() ==> rule_wf(
            #[trigger] self.rules_seq()[r],
            n,
        )
        &&& forall|s: int, j: int|
            0 <= s < n && 0 <= j < self.rules_of@[s]@.len() ==> {
                let id = #[trigger] self.rules_of@[s]@[j] as int;
                &&& 0 <= id < self.rules_seq().len()
                &&& self.rules_seq()[id].nonterm == s
            }
        &&& forall|s: int| 0 <= s < n ==> #[trigger] self.rules_of@[s]@.len() >= 1
        &&& forall|s: int| 0 <= s < n ==> 1 <= #[trigger] self.sizes()[s] < SIZE_CAP as int
        &&& forall|s: int|
            0 <= s < n ==> {
                let mr = #[trigger] self.min_rule@[s] as int;
                &&& 0 <= mr < self.rules_seq().len()
                &&& self.rules_seq()[mr].nonterm == s
                &&& rule_cost(self.rules_seq()[mr].slots, self.sizes()) == self.sizes()[s]
            }
        &&& forall|r: int|
            0 <= r < self.rules_seq().len() ==> self.sizes()[#[trigger] self.rules_seq()[r].nonterm]
                <= rule_cost(self.rules_seq()[r].slots, self.sizes())
        &&& forall|s: int| 0 <= s < n ==> 1 <= #[trigger] self.depths()[s] <= SIZE_CAP as int
        &&& forall|r: int|
            0 <= r < self.rules_seq().len() ==> self.depths()[#[trigger] self.rules_seq()[
                r
            ].nonterm] <= depth_cost(self.rules_seq()[r].slots, self.depths())
        &&& forall|s: int|
            0 <= s < n && #[trigger] self.depths()[s] < SIZE_CAP as int ==> exists|r: int|
                0 <= r < self.rules_seq().len() && self.rules_seq()[r].nonterm == s
                    && self.depths()[s] >= depth_cost(
                    #[trigger] self.rules_seq()[r].slots,
                    self.depths(),
                )
    }

    /// Loads and validates a grammar: `n_syms` interned symbols and the
    /// full rule table. Rejects, in this order of checks: an empty symbol
    /// table; a rule whose owner or slot reference is out of range; a
    /// nonterminal owning no rule; and a nonterminal that cannot derive a
    /// finite tree (of fewer than [`SIZE_CAP`] nodes). On success the
    /// returned context carries the exact input rules and the invariant
    /// every generation and mutation routine relies on.
    pub fn load(n_syms: usize, rules: Vec<Rule>) -> (res: Result<Context, GrammarError>)
        ensures
            match res {
                Ok(ctx) => {
                    &&& ctx.wf()
                    &&& ctx.n_syms() == n_syms
                    &&& ctx.rules_seq() == rules_view(rules@)
                    &&& forall|s: int|
                        0 <= s < n_syms ==> !#[trigger] unproductive(rules_view(rules@), s)
                },
                Err(e) => match e {
                    GrammarError::Empty => n_syms == 0,
                    GrammarError::SymbolOutOfRange => exists|i: int|
                        0 <= i < rules@.len() && !rule_wf(
                            #[trigger] rules_view(rules@)[i],
                            n_syms as int,
                        ),
                    GrammarError::RulelessSymbol => exists|s: int|
                        0 <= s < n_syms && !#[trigger] has_rule(rules_view(rules@), s),
                    GrammarError::UnproductiveSymbol => exists|s: int|
                        0 <= s < n_syms && #[trigger] unproductive(rules_view(rules@), s),
                },
            },
    {
        if n_syms == 0 {
            return Err(GrammarError::Empty);
        }
        let ghost rv = rules_view(rules@);
        let n_rules = rules.len();
        // Reference validation.
        for i in 0..n_rules
            invariant
                rv == rules_view(rules@),
                n_rules == rules@.len(),
                n_syms >= 1,
                forall|i2: int| 0 <= i2 < i ==> rule_wf(#[trigger] rv[i2], n_syms as int),
        {
            let rule = &rules[i];
            if rule.nonterm >= n_syms {
                proof {
                    assert(!rule_wf(rv[i as int], n_syms as int));
                }
                return Err(GrammarError::SymbolOutOfRange);
            }
            let n_slots = rule.slots.len();
            for k in 0..n_slots
                invariant
                    rv == rules_view(rules@),
                    n_rules == rules@.len(),
                    i < n_rules,
                    rule == rules@[i as int],
                    n_slots == rule.slots@.len(),
                    rule.nonterm < n_syms,
                    forall|k2: int|
                        0 <= k2 < k ==> slot_wf(#[trigger] rv[i as int].slots[k2], n_syms as int),
            {
                proof {
                    assert(rv[i as int].slots[k as int] == rule.slots@[k as int]@);
                }
                match &rule.slots[k] {
                    Slot::Literal(_) => {},
                    Slot::NonTerm(m) => {
                        if *m >= n_syms {
                            proof {
                                assert(!slot_wf(rv[i as int].slots[k as int], n_syms as int));
                                assert(!rule_wf(rv[i as int], n_syms as int));
                            }
                            return Err(GrammarError::SymbolOutOfRange);
                        }
                    },
                }
            }
            proof {
                assert(rv[i as int].slots =~= rule.slots@.map_values(|s: Slot| s@));
                assert(rule_wf(rv[i as int], n_syms as int));
            }
        }
        // Per-symbol rule index; every nonterminal must own at least one rule.
        let mut rules_of: Vec<Vec<usize>> = Vec::new();
        for s in 0..n_syms
            invariant
                rv == rules_view(rules@),
                n_rules == rules@.len(),
                rules_of@.len() == s,
                forall|s2: int, j: int|
                    0 <= s2 < s && 0 <= j < rules_of@[s2]@.len() ==> {
                        let id = #[trigger] rules_of@[s2]@[j] as int;
                        &&& 0 <= id < n_rules
                        &&& rv[id].nonterm == s2
                    },
                forall|s2: int| 0 <= s2 < s ==> #[trigger] rules_of@[s2]@.len() >= 1,
        {
            let mut ids: Vec<usize> = Vec::new();
            for r in 0..n_rules
                invariant
                    rv == rules_view(rules@),
                    n_rules == rules@.len(),
                    s < n_syms,
                    forall|j: int|
                        0 <= j < ids@.len() ==> {
                            let id = #[trigger] ids@[j] as int;
                            &&& 0 <= id < n_rules
                            &&& rv[id].nonterm == s as int
                        },
                    ids@.len() == 0 ==> forall|r2: int|
                        0 <= r2 < r ==> (#[trigger] rv[r2]).nonterm != s as int,
            {
                if rules[r].nonterm == s {
                    ids.push(r);
                }
            }
            if ids.len() == 0 {
                proof {
                    assert(!has_rule(rv, s as int));
                }
                return Err(GrammarError::RulelessSymbol);
            }
            rules_of.push(ids);
        }
        // Minimum-size fixed point, then reject any symbol left unbounded.
        let sizes = fixpoint_sizes(n_syms, &rules);
        for s in 0..n_syms
            invariant
                rv == rules_view(rules@),
                n_rules == rules@.len(),
                forall|i: int| 0 <= i < n_rules ==> rule_wf(#[trigger] rv[i], n_syms as int),
                sizes@.len() == n_syms,
                forall|i: int| 0 <= i < n_syms ==> 1 <= #[trigger] sizes@[i] <= SIZE_CAP,
                forall|r: int|
                    0 <= r < n_rules ==> int_view(sizes@)[#[trigger] rv[r].nonterm] <= rule_cost(
                        rv[r].slots,
                        int_view(sizes@),
                    ),
                forall|s2: int| 0 <= s2 < s ==> #[trigger] sizes@[s2] < SIZE_CAP,
        {
            if sizes[s] >= SIZE_CAP {
                proof {
                    let iz = int_view(sizes@);
                    assert forall|i: int| 0 <= i < iz.len() implies 1 <= #[trigger] iz[i]
                        <= SIZE_CAP as int by {
                        assert(iz[i] == sizes@[i] as int);
                    }
                    assert forall|t: Seq<crate::tree::NodeV>|
                        (#[trigger] crate::tree::wf_sub(rv, t)) && crate::tree::root_sym(rv, t)
                            == s as int implies t.len() >= SIZE_CAP as int by {
                        crate::tree::lemma_tree_at_least_min_size(rv, iz, t);
                        assert(iz[s as int] == SIZE_CAP as int);
                    }
                    assert(unproductive(rv, s as int));
                }
                return Err(GrammarError::UnproductiveSymbol);
            }
        }
        // For each symbol, find a rule achieving exactly the minimum size.
        let mut min_rule: Vec<usize> = Vec::new();
        for s in 0..n_syms
            invariant
                rv == rules_view(rules@),
                n_rules == rules@.len(),
                n_syms >= 1,
                forall|i: int| 0 <= i < n_rules ==> rule_wf(#[trigger] rv[i], n_syms as int),
                sizes@.len() == n_syms,
                forall|i: int| 0 <= i < n_syms ==> 1 <= #[trigger] sizes@[i] < SIZE_CAP,
                forall|r: int|
                    0 <= r < n_rules ==> int_view(sizes@)[#[trigger] rv[r].nonterm] <= rule_cost(
                        rv[r].slots,
                        int_view(sizes@),
                    ),
                forall|s2: int|
                    0 <= s2 < n_syms && #[trigger] sizes@[s2] < SIZE_CAP ==> exists|r: int|
                        0 <= r < n_rules && rv[r].nonterm == s2 && int_view(sizes@)[s2]
                            >= rule_cost(#[trigger] rv[r].slots, int_view(sizes@)),
                min_rule@.len() == s,
                forall|s2: int|
                    0 <= s2 < s ==> {
                        let mr = #[trigger] min_rule@[s2] as int;
                        &&& 0 <= mr < n_rules
                        &&& rv[mr].nonterm == s2
                        &&& rule_cost(rv[mr].slots, int_view(sizes@)) == sizes@[s2]
                    },
        {
            let mut found: usize = 0;
            let mut have: bool = false;
            for r in 0..n_rules
                invariant
                    rv == rules_view(rules@),
                    n_rules == rules@.len(),
                    s < n_syms,
                    forall|i: int| 0 <= i < n_rules ==> rule_wf(#[trigger] rv[i], n_syms as int),
                    sizes@.len() == n_syms,
                    forall|i: int| 0 <= i < n_syms ==> 1 <= #[trigger] sizes@[i] < SIZE_CAP,
                    have ==> {
                        &&& found < n_rules
                        &&& rv[found as int].nonterm == s as int
                        &&& rule_cost(rv[found as int].slots, int_view(sizes@)) == sizes@[s as int]
                    },
                    !have ==> forall|r2: int|
                        0 <= r2 < r && (#[trigger] rv[r2]).nonterm == s as int ==> rule_cost(
                            rv[r2].slots,
                            int_view(sizes@),
                        ) != sizes@[s as int],
            {
                if !have && rules[r].nonterm == s {
                    let c = cost_of(&rules, r, &sizes);
                    if c == sizes[s] {
                        found = r;
                        have = true;
                    }
                }
            }
            if !have {
                proof {
                    let r = choose|r: int|
                        0 <= r < n_rules && rv[r].nonterm == s as int && int_view(
                            sizes@,
                        )[s as int] >= rule_cost(#[trigger] rv[r].slots, int_view(sizes@));
                    assert(int_view(sizes@)[rv[r].nonterm] <= rule_cost(
                        rv[r].slots,
                        int_view(sizes@),
                    ));
                    assert(false);
                }
                return vstd::pervasive::unreached();
            }
            min_rule.push(found);
        }
        // The minimum-height table, by the same fixed-point iteration.
        let min_depth = fixpoint_depths(n_syms, &rules);
        let ctx = Context { rules, rules_of, min_size: sizes, min_depth, min_rule };
        proof {
            assert(ctx.rules_seq() == rv);
            assert(ctx.sizes() =~= int_view(ctx.min_size@));
            assert(ctx.depths() =~= int_view(ctx.min_depth@));
            assert forall|s: int| 0 <= s < n_syms implies !#[trigger] unproductive(rv, s) by {
                crate::tree::lemma_min_tree_exists(ctx, s);
                let t = choose|t: Seq<crate::tree::NodeV>|
                    crate::tree::wf_sub(ctx.rules_seq(), t) && crate::tree::root_sym(
                        ctx.rules_seq(),
                        t,
                    ) == s && (#[trigger] t.len()) == ctx.sizes()[s];
                assert(t.len() < SIZE_CAP as int);
            }
        }
        Ok(ctx)
    }

    /// Number of symbols in the grammar.
    pub fn num_symbols(&self) -> (n: usize)
        ensures
            n == self.n_syms(),
    {
        self.rules_of.len()
    }

    /// The node count of the smallest tree derivable from `symbol`.
    pub fn min_size(&self, symbol: usize) -> (r: usize)
        requires
            self.wf(),
            symbol < self.n_syms(),
        ensures
            r == self.sizes()[symbol as int],
            1 <= r < SIZE_CAP,
    {
        proof {
            assert(1 <= self.sizes()[symbol as int] < SIZE_CAP as int);
        }
        self.min_size[symbol]
    }

    /// The minimum height of any tree derivable from `symbol`, as the
    /// fixed-point bullets of [`Context::wf`] pin it.
    pub fn min_depth(&self, symbol: usize) -> (r: usize)
        requires
            self.wf(),
            symbol < self.n_syms(),
        ensures
            r == self.min_depth@[symbol as int],
    {
        self.min_depth[symbol]
    }

    /// The ids of the rules owned by `symbol`, in input order.
    pub fn rules_of(&self, symbol: usize) -> (r: &Vec<usize>)
        requires
            self.wf(),
            symbol < self.n_syms(),
        ensures
            r@ == self.rules_of@[symbol as int]@,
            r@.len() >= 1,
            forall|j: int|
                0 <= j < r@.len() ==> {
                    let id = #[trigger] r@[j] as int;
                    &&& 0 <= id < self.rules_seq().len()
                    &&& self.rules_seq()[id].nonterm == symbol as int
                },
    {
        &self.rules_of[symbol]
    }
}

} // verus!
