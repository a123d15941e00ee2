//! End-to-end exercises of the grammar engine: loading, generation,
//! unparsing, splicing, harvesting, snapshots and merging.
use grammartec::chunkstore::ChunkStore;
use grammartec::feedback::{NautilusChunksMetadata, NautilusFeedback};
use grammartec::grammar::{Context, Rule, Slot};
use grammartec::tree::{MutationStrategy, Node, Rng, Tree};
use grammartec::{GrammarError, SymbolMismatchError};

/// Grammar with one nonterminal: S -> "a" S "b" | "c".
fn ascb_rules() -> Vec<Rule> {
    vec![
        Rule {
            nonterm: 0,
            slots: vec![
                Slot::Literal(b"a".to_vec()),
                Slot::NonTerm(0),
                Slot::Literal(b"b".to_vec()),
            ],
        },
        Rule { nonterm: 0, slots: vec![Slot::Literal(b"c".to_vec())] },
    ]
}

fn ascb_context() -> Context {
    Context::load(1, ascb_rules()).expect("grammar loads")
}

/// Grammar with two nonterminals: S -> T "x" | "y"; T -> "t".
fn two_sym_context() -> Context {
    let rules = vec![
        Rule { nonterm: 0, slots: vec![Slot::NonTerm(1), Slot::Literal(b"x".to_vec())] },
        Rule { nonterm: 0, slots: vec![Slot::Literal(b"y".to_vec())] },
        Rule { nonterm: 1, slots: vec![Slot::Literal(b"t".to_vec())] },
    ];
    Context::load(2, rules).expect("grammar loads")
}

fn unparse_string(ctx: &Context, t: &Tree) -> Vec<u8> {
    ctx.unparse(t)
}

/// Per-symbol sets of stored subtrees, as sorted unparse outputs.
fn store_fingerprint(ctx: &Context, s: &ChunkStore) -> Vec<Vec<Vec<u8>>> {
    let mut out: Vec<Vec<Vec<u8>>> = Vec::new();
    for list in &s.entries {
        let mut per: Vec<Vec<u8>> = list.iter().map(|t| ctx.unparse(t)).collect();
        per.sort();
        out.push(per);
    }
    out
}

#[test]
fn load_accepts_ascb_grammar() {
    let ctx = ascb_context();
    assert_eq!(ctx.num_symbols(), 1);
    assert_eq!(ctx.min_size(0), 2);
    assert_eq!(ctx.min_depth(0), 2);
    assert_eq!(ctx.rules_of(0).len(), 2);
}

#[test]
fn load_rejects_empty_grammar() {
    assert!(matches!(Context::load(0, vec![]), Err(GrammarError::Empty)));
}

#[test]
fn load_rejects_out_of_range_reference() {
    let rules = vec![Rule { nonterm: 0, slots: vec![Slot::NonTerm(7)] }];
    assert!(matches!(Context::load(1, rules), Err(GrammarError::SymbolOutOfRange)));
}

#[test]
fn load_rejects_ruleless_symbol() {
    let rules = vec![Rule { nonterm: 0, slots: vec![Slot::Literal(b"z".to_vec())] }];
    assert!(matches!(Context::load(2, rules), Err(GrammarError::RulelessSymbol)));
}

#[test]
fn load_rejects_unproductive_symbol() {
    // S -> "a" S can never finish.
    let rules = vec![
        Rule { nonterm: 0, slots: vec![Slot::Literal(b"a".to_vec()), Slot::NonTerm(0)] },
    ];
    assert!(matches!(Context::load(1, rules), Err(GrammarError::UnproductiveSymbol)));
}

#[test]
fn tight_budget_selects_terminating_rule() {
    let ctx = ascb_context();
    let mut rng = Rng::new(7);
    let t = grammartec::tree::generate(&ctx, 0, 1, &mut rng);
    assert_eq!(unparse_string(&ctx, &t), b"c".to_vec());
}

fn assert_matches_ascb(bytes: &[u8]) {
    // The language of S is exactly a^n c b^n.
    assert!(!bytes.is_empty());
    let n = bytes.iter().take_while(|&&b| b == b'a').count();
    assert_eq!(bytes.len(), 2 * n + 1);
    assert_eq!(bytes[n], b'c');
    assert!(bytes[n + 1..].iter().all(|&b| b == b'b'));
}

#[test]
fn generated_output_stays_in_language() {
    let ctx = ascb_context();
    for seed in 1..20u64 {
        let mut rng = Rng::new(seed);
        let t = grammartec::tree::generate(&ctx, 0, 50, &mut rng);
        assert!(t.nodes.len() <= 50);
        let bytes = unparse_string(&ctx, &t);
        assert_matches_ascb(&bytes);
    }
}

#[test]
fn unparse_is_deterministic() {
    let ctx = ascb_context();
    let mut rng = Rng::new(99);
    let t = grammartec::tree::generate(&ctx, 0, 40, &mut rng);
    let first = unparse_string(&ctx, &t);
    let second = unparse_string(&ctx, &t);
    assert_eq!(first, second);
}

#[test]
fn subtree_range_spans_are_nested_and_exact() {
    let ctx = ascb_context();
    let mut rng = Rng::new(3);
    let t = grammartec::tree::generate(&ctx, 0, 30, &mut rng);
    let (start, end) = t.subtree_range(&ctx, 0);
    assert_eq!((start, end), (0, t.nodes.len()));
    for i in 0..t.nodes.len() {
        let (s, e) = t.subtree_range(&ctx, i);
        assert_eq!(s, i);
        assert!(s < e && e <= t.nodes.len());
    }
}

#[test]
fn replace_subtree_splices_same_symbol() {
    let ctx = ascb_context();
    let mut rng = Rng::new(11);
    let big = grammartec::tree::generate(&ctx, 0, 30, &mut rng);
    let mut rng2 = Rng::new(5);
    let small = grammartec::tree::generate(&ctx, 0, 1, &mut rng2);
    // Replacing the root with the minimal tree leaves exactly "c".
    let swapped = big.replace_subtree(&ctx, 0, &small).expect("same symbol splices");
    assert_eq!(unparse_string(&ctx, &swapped), b"c".to_vec());
    // Replacing an inner S keeps the output in the language.
    if big.nodes.len() > 2 {
        let inner = (1..big.nodes.len())
            .find(|&i| matches!(big.nodes[i], Node::Apply { .. }))
            .expect("an inner rule node exists");
        let swapped2 = big.replace_subtree(&ctx, inner, &small).expect("same symbol splices");
        assert_matches_ascb(&unparse_string(&ctx, &swapped2));
    }
}

#[test]
fn replace_subtree_rejects_symbol_mismatch() {
    let ctx = two_sym_context();
    let mut rng = Rng::new(2);
    let s_tree = grammartec::tree::generate(&ctx, 0, 10, &mut rng);
    let t_tree = grammartec::tree::generate(&ctx, 1, 10, &mut rng);
    let before_nodes = s_tree.nodes.len();
    let before_bytes = unparse_string(&ctx, &s_tree);
    let res = s_tree.replace_subtree(&ctx, 0, &t_tree);
    assert!(matches!(res, Err(SymbolMismatchError)));
    // The original tree is untouched.
    assert_eq!(s_tree.nodes.len(), before_nodes);
    assert_eq!(unparse_string(&ctx, &s_tree), before_bytes);
}

#[test]
fn add_tree_is_idempotent() {
    let ctx = ascb_context();
    let mut rng = Rng::new(21);
    let t = grammartec::tree::generate(&ctx, 0, 20, &mut rng);
    let mut store = ChunkStore::new(String::from("wd"));
    store.add_tree(&t, &ctx);
    let once = store_fingerprint(&ctx, &store);
    assert!(once.iter().any(|per| !per.is_empty()));
    store.add_tree(&t, &ctx);
    let twice = store_fingerprint(&ctx, &store);
    assert_eq!(once, twice);
}

#[test]
fn harvested_subtree_can_be_sampled_back() {
    let ctx = ascb_context();
    let mut rng = Rng::new(31);
    let t = grammartec::tree::generate(&ctx, 0, 1, &mut rng);
    let x = unparse_string(&ctx, &t);
    let mut store = ChunkStore::new(String::from("wd"));
    store.add_tree(&t, &ctx);
    let count_before = store.entries[0].len();
    // Some sample must unparse identically to the harvested subtree.
    let mut seen = false;
    for seed in 0..32u64 {
        let mut r = Rng::new(seed);
        if let Some(s) = store.sample(0, &mut r) {
            if unparse_string(&ctx, &s) == x {
                seen = true;
            }
        }
    }
    assert!(seen);
    // A second harvest of the same tree does not grow the collection.
    store.add_tree(&t, &ctx);
    assert_eq!(store.entries[0].len(), count_before);
}

#[test]
fn sample_of_unknown_symbol_is_none() {
    let store = ChunkStore::new(String::from("wd"));
    let mut rng = Rng::new(1);
    assert!(store.sample(0, &mut rng).is_none());
}

#[test]
fn snapshot_roundtrip_preserves_stored_sets() {
    let ctx = ascb_context();
    let mut store = ChunkStore::new(String::from("wd"));
    for seed in 1..6u64 {
        let mut rng = Rng::new(seed);
        let t = grammartec::tree::generate(&ctx, 0, 25, &mut rng);
        store.add_tree(&t, &ctx);
    }
    let lines = store.persist_snapshot();
    let restored = ChunkStore::restore_snapshot(&lines, String::from("wd"), &ctx);
    assert_eq!(store_fingerprint(&ctx, &store), store_fingerprint(&ctx, &restored));
    // Restore rebuilt the dedup index: re-adding an already-stored tree
    // into the restored store changes nothing.
    let mut restored = restored;
    let before = store_fingerprint(&ctx, &restored);
    let mut rng = Rng::new(1);
    let t = grammartec::tree::generate(&ctx, 0, 25, &mut rng);
    restored.add_tree(&t, &ctx);
    assert_eq!(before, store_fingerprint(&ctx, &restored));
}

#[test]
fn restore_of_empty_snapshot_is_empty_store() {
    let ctx = ascb_context();
    let restored = ChunkStore::restore_snapshot(&Vec::new(), String::from("wd"), &ctx);
    assert!(restored.entries.iter().all(|l| l.is_empty()));
}

#[test]
fn merge_is_order_independent() {
    let ctx = ascb_context();
    let mut a = ChunkStore::new(String::from("wd"));
    let mut b = ChunkStore::new(String::from("wd"));
    for seed in 1..5u64 {
        let mut rng = Rng::new(seed);
        a.add_tree(&grammartec::tree::generate(&ctx, 0, 15, &mut rng), &ctx);
    }
    for seed in 40..44u64 {
        let mut rng = Rng::new(seed);
        b.add_tree(&grammartec::tree::generate(&ctx, 0, 35, &mut rng), &ctx);
    }
    let mut ab = ChunkStore::new(String::from("wd"));
    ab.merge(&a, &ctx);
    ab.merge(&b, &ctx);
    let mut ba = ChunkStore::new(String::from("wd"));
    ba.merge(&b, &ctx);
    ba.merge(&a, &ctx);
    assert_eq!(store_fingerprint(&ctx, &ab), store_fingerprint(&ctx, &ba));
}

#[test]
fn mutate_keeps_output_in_language() {
    let ctx = ascb_context();
    let mut store = ChunkStore::new(String::from("wd"));
    let mut rng = Rng::new(8);
    let seedling = grammartec::tree::generate(&ctx, 0, 25, &mut rng);
    store.add_tree(&seedling, &ctx);
    let t = grammartec::tree::generate(&ctx, 0, 25, &mut rng);
    for strategy in [
        MutationStrategy::Splice,
        MutationStrategy::Regenerate,
        MutationStrategy::TerminalBytes,
    ] {
        let m = t.mutate(&ctx, &store, strategy, &mut rng);
        assert!(!m.nodes.is_empty());
        // Structural mutations keep the derivation grammatical; only
        // terminal byte mutation may leave the concrete language.
        if !matches!(strategy, MutationStrategy::TerminalBytes) {
            assert_matches_ascb(&unparse_string(&ctx, &m));
        }
    }
}

#[test]
fn recombine_pulls_from_sibling() {
    let ctx = ascb_context();
    let mut rng = Rng::new(14);
    let a = grammartec::tree::generate(&ctx, 0, 25, &mut rng);
    let b = grammartec::tree::generate(&ctx, 0, 9, &mut rng);
    let r = a.recombine(&ctx, &b, &mut rng);
    assert_matches_ascb(&unparse_string(&ctx, &r));
}

#[test]
fn minimization_candidates_shrink() {
    let ctx = ascb_context();
    let mut rng = Rng::new(17);
    let mut t = grammartec::tree::generate(&ctx, 0, 41, &mut rng);
    let store = ChunkStore::new(String::from("wd"));
    // Innermost-first: propose for deeper nodes before shallower ones.
    for idx in (0..t.nodes.len()).rev() {
        if idx >= t.nodes.len() {
            continue;
        }
        if let Some(c) = t.propose_minimization(&ctx, &store, idx, &mut rng) {
            assert!(c.nodes.len() < t.nodes.len());
            assert_matches_ascb(&unparse_string(&ctx, &c));
            // Accept every candidate, as an external predicate would.
            t = c;
        }
    }
    // Full acceptance minimizes to the smallest derivation.
    assert_eq!(unparse_string(&ctx, &t), b"c".to_vec());
}

#[test]
fn feedback_harvests_kept_inputs() {
    let ctx = ascb_context();
    let feedback = NautilusFeedback::new(&ctx);
    assert_eq!(feedback.name(), "NautilusFeedback");
    assert!(!feedback.is_interesting());
    let mut meta = NautilusChunksMetadata::new(String::from("wd"));
    let mut rng = Rng::new(23);
    let t = grammartec::tree::generate(&ctx, 0, 20, &mut rng);
    feedback.append_metadata(&mut meta, &t);
    assert!(!meta.cks.entries[0].is_empty());
    let before = store_fingerprint(&ctx, &meta.cks);
    feedback.discard_metadata(&mut meta);
    assert_eq!(before, store_fingerprint(&ctx, &meta.cks));
}

#[test]
fn tiny_budget_yields_minimum_size_tree() {
    let ctx = ascb_context();
    for seed in 1..6u64 {
        let mut rng = Rng::new(seed);
        let t = grammartec::tree::generate(&ctx, 0, 0, &mut rng);
        assert_eq!(t.nodes.len(), ctx.min_size(0));
        assert_eq!(unparse_string(&ctx, &t), b"c".to_vec());
    }
}

#[test]
fn two_symbol_tables_are_exact() {
    let ctx = two_sym_context();
    assert_eq!(ctx.num_symbols(), 2);
    // S -> "y" is the cheapest S rule; T -> "t" the only T rule.
    assert_eq!(ctx.min_size(0), 2);
    assert_eq!(ctx.min_size(1), 2);
    assert_eq!(ctx.min_depth(0), 2);
    assert_eq!(ctx.min_depth(1), 2);
    let mut rng = Rng::new(4);
    let t = grammartec::tree::generate(&ctx, 0, 1, &mut rng);
    assert_eq!(unparse_string(&ctx, &t), b"y".to_vec());
}

#[test]
fn harvesting_indexes_by_symbol() {
    let ctx = two_sym_context();
    let mut store = ChunkStore::new(String::from("wd"));
    for seed in 1..20u64 {
        let mut rng = Rng::new(seed);
        let t = grammartec::tree::generate(&ctx, 0, 10, &mut rng);
        store.add_tree(&t, &ctx);
    }
    // Both nonterminals were seen: S roots every tree, T appears whenever
    // the "t x" alternative was drawn.
    assert!(!store.entries[0].is_empty());
    assert!(!store.entries[1].is_empty());
    // Everything under T unparses to its only derivation.
    for t in &store.entries[1] {
        assert_eq!(ctx.unparse(t), b"t".to_vec());
    }
}

#[test]
fn snapshot_lines_are_deterministic() {
    let ctx = ascb_context();
    let mut store = ChunkStore::new(String::from("wd"));
    for seed in 1..6u64 {
        let mut rng = Rng::new(seed);
        store.add_tree(&grammartec::tree::generate(&ctx, 0, 25, &mut rng), &ctx);
    }
    // Flattening is pinned to symbol-major, insertion order: two calls
    // produce identical line sequences.
    let a = store.persist_snapshot();
    let b = store.persist_snapshot();
    assert_eq!(a.len(), b.len());
    for k in 0..a.len() {
        assert_eq!(a[k].symbol, b[k].symbol);
        assert_eq!(ctx.unparse(&a[k].tree), ctx.unparse(&b[k].tree));
    }
}
