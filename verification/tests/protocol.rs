use biscuit_poc::datalog::{fact, pred, rule, var, Fact, ID, World};
use biscuit_poc::symbols::default_symbol_table;
use biscuit_poc::token::{BiscuitLogic, Block, Error, Phase};

const AUTHORITY: u64 = 0;
const AMBIENT: u64 = 1;

fn sym(s: u64) -> ID {
    ID::Symbol(s)
}

/// An authority block granting `right(authority, file1, read)`, with the
/// ids file1 = 2, read = 3, right = 4.
fn simple_authority() -> Block {
    let mut b = Block::new(0, default_symbol_table());
    let file1 = b.symbol_add("file1");
    let read = b.symbol_add("read");
    let right = b.symbol_insert("right");
    b.facts = vec![fact(right, vec![sym(AUTHORITY), file1, read])];
    BiscuitLogic::adjust_authority_symbols(&mut b);
    b
}

#[test]
fn scope_enforcement_rejects_mis_scoped_authority_fact() {
    let mut b = simple_authority();
    // one fact claims the ambient scope; every other fact is valid
    b.facts.push(fact(4, vec![sym(AMBIENT), sym(2), sym(3)]));
    let logic = BiscuitLogic::new(b, vec![]);
    let errors = logic.check(vec![], vec![]).unwrap_err();
    assert_eq!(errors.len(), 1);
    assert!(matches!(
        errors[0],
        Error::ScopeViolation { phase: Phase::Authority, .. }
    ));
}

#[test]
fn authority_fact_without_arguments_is_a_scope_violation() {
    let mut b = simple_authority();
    b.facts.push(fact(4, vec![]));
    let logic = BiscuitLogic::new(b, vec![]);
    let errors = logic.check(vec![], vec![]).unwrap_err();
    assert_eq!(errors.len(), 1);
    assert!(matches!(
        errors[0],
        Error::ScopeViolation { phase: Phase::Authority, .. }
    ));
}

#[test]
fn trust_boundary_violation_on_escaping_derivation() {
    let mut b = simple_authority();
    // an authority caveat acts as a derivation rule during phase A; this one
    // derives a fact tagged with the ambient scope
    let leak: u64 = 99;
    b.caveats.push(rule(
        leak,
        vec![sym(AMBIENT), var(0)],
        vec![pred(4, vec![sym(AUTHORITY), var(0), sym(3)])],
    ));
    let logic = BiscuitLogic::new(b, vec![]);
    let errors = logic.check(vec![], vec![]).unwrap_err();
    assert_eq!(errors.len(), 1);
    assert!(matches!(errors[0], Error::TrustBoundaryViolation { .. }));
}

#[test]
fn ambient_facts_must_carry_ambient_tag() {
    let logic = BiscuitLogic::new(simple_authority(), vec![]);
    // the caller-supplied fact claims the authority scope
    let bad = vec![fact(4, vec![sym(AUTHORITY), sym(2), sym(3)])];
    let errors = logic.check(bad, vec![]).unwrap_err();
    assert_eq!(errors.len(), 1);
    assert!(matches!(
        errors[0],
        Error::ScopeViolation { phase: Phase::Ambient, .. }
    ));
}

#[test]
fn block_local_facts_cannot_impersonate_reserved_scopes() {
    let logic = BiscuitLogic::new(simple_authority(), vec![]);
    let mut block = logic.create_block();
    // a block-local fact claiming the authority scope widens rights
    block.facts.push(fact(4, vec![sym(AUTHORITY), sym(2), sym(3)]));
    let logic = BiscuitLogic::new(simple_authority(), vec![block]);
    let errors = logic.check(vec![], vec![]).unwrap_err();
    assert_eq!(errors.len(), 1);
    assert!(matches!(
        errors[0],
        Error::ScopeViolation { phase: Phase::Block { index: 0 }, .. }
    ));
}

#[test]
fn isolation_between_sibling_blocks() {
    // block A asserts a local fact; block B's caveat needs that fact
    let logic0 = BiscuitLogic::new(simple_authority(), vec![]);
    let mut block_a = logic0.create_block();
    let local = block_a.symbol_insert("local");
    let marker = block_a.symbol_insert("marker");
    block_a.facts.push(fact(marker, vec![ID::Symbol(local)]));

    let mut block_b = logic0.create_block();
    block_b.index = 2;
    block_b
        .caveats
        .push(rule(marker, vec![var(0)], vec![pred(marker, vec![var(0)])]));

    // checked after its sibling, block B must not see block A's fact
    let chained = BiscuitLogic::new(simple_authority(), vec![block_a, block_b]);
    let errors = chained.check(vec![], vec![]).unwrap_err();
    assert_eq!(errors.len(), 1);
    assert!(matches!(
        errors[0],
        Error::CaveatFailure { block: 1, caveat: 0, .. }
    ));

    // checked alone against the same baseline, the outcome is identical
    let logic1 = BiscuitLogic::new(simple_authority(), vec![]);
    let mut block_b_alone = logic1.create_block();
    let local1 = block_b_alone.symbol_insert("local");
    let marker1 = block_b_alone.symbol_insert("marker");
    assert_eq!((local1, marker1), (local, marker));
    block_b_alone
        .caveats
        .push(rule(marker1, vec![var(0)], vec![pred(marker1, vec![var(0)])]));
    let single = BiscuitLogic::new(simple_authority(), vec![block_b_alone]);
    let errors = single.check(vec![], vec![]).unwrap_err();
    assert_eq!(errors.len(), 1);
    assert!(matches!(
        errors[0],
        Error::CaveatFailure { block: 0, caveat: 0, .. }
    ));
}

#[test]
fn block_sees_its_own_local_facts() {
    let logic0 = BiscuitLogic::new(simple_authority(), vec![]);
    let mut block = logic0.create_block();
    let local = block.symbol_insert("local");
    let marker = block.symbol_insert("marker");
    block.facts.push(fact(marker, vec![ID::Symbol(local)]));
    block
        .caveats
        .push(rule(marker, vec![var(0)], vec![pred(marker, vec![var(0)])]));
    let logic = BiscuitLogic::new(simple_authority(), vec![block]);
    assert!(logic.check(vec![], vec![]).is_ok());
}

#[test]
fn caveat_monotonicity_scenario() {
    // the caveat needs resource(ambient, file1) among the ambient facts
    let logic0 = BiscuitLogic::new(simple_authority(), vec![]);
    let mut block = logic0.create_block();
    let resource = block.symbol_insert("resource");
    block
        .caveats
        .push(rule(resource, vec![sym(2)], vec![pred(resource, vec![sym(AMBIENT), sym(2)])]));
    let logic = BiscuitLogic::new(simple_authority(), vec![block]);

    // without the fact the caveat fails
    let errors = logic.check(vec![], vec![]).unwrap_err();
    assert!(matches!(errors[0], Error::CaveatFailure { block: 0, caveat: 0, .. }));

    // adding the satisfying ambient fact turns it into a pass
    let ok = logic.check(vec![fact(resource, vec![sym(AMBIENT), sym(2)])], vec![]);
    assert!(ok.is_ok());
}

#[test]
fn closure_derives_transitively() {
    let mut w = World::new();
    // edge(7, a, b), edge(7, b, c); path(8) is the transitive closure
    let a = sym(100);
    let b = sym(101);
    let c = sym(102);
    w.insert(fact(7, vec![a, b]));
    w.insert(fact(7, vec![b, c]));
    w.add_rule(rule(8, vec![var(0), var(1)], vec![pred(7, vec![var(0), var(1)])]));
    w.add_rule(rule(
        8,
        vec![var(0), var(2)],
        vec![pred(8, vec![var(0), var(1)]), pred(8, vec![var(1), var(2)])],
    ));
    w.run();
    let reached = w.query_rule(&rule(9, vec![], vec![pred(8, vec![a, c])]));
    assert!(!reached.is_empty());
    let absent = w.query_rule(&rule(9, vec![], vec![pred(8, vec![c, a])]));
    assert!(absent.is_empty());
}

#[test]
fn world_insert_deduplicates() {
    let mut w = World::new();
    w.insert(fact(7, vec![sym(1), sym(2)]));
    w.insert(fact(7, vec![sym(1), sym(2)]));
    assert_eq!(w.facts.len(), 1);
}

#[test]
fn ambient_rules_derive_facts_for_caveats() {
    // an ambient rule derives owns(ambient, file1) from resource(ambient, file1)
    let logic0 = BiscuitLogic::new(simple_authority(), vec![]);
    let mut block = logic0.create_block();
    let resource = block.symbol_insert("resource");
    let owns = block.symbol_insert("owns");
    block
        .caveats
        .push(rule(owns, vec![var(0)], vec![pred(owns, vec![sym(AMBIENT), var(0)])]));
    let logic = BiscuitLogic::new(simple_authority(), vec![block]);
    let af = vec![fact(resource, vec![sym(AMBIENT), sym(2)])];
    let ar = vec![rule(
        owns,
        vec![sym(AMBIENT), var(0)],
        vec![pred(resource, vec![sym(AMBIENT), var(0)])],
    )];
    assert!(logic.check(af, ar).is_ok());
}

#[test]
fn query_returns_exact_bindings() {
    let mut w = World::new();
    w.insert(fact(7, vec![sym(40)]));
    w.insert(fact(7, vec![sym(41)]));
    let bindings = w.query_rule(&rule(8, vec![var(0)], vec![pred(7, vec![var(0)])]));
    assert_eq!(bindings.len(), 2);
    assert_eq!(bindings[0], vec![(0u64, sym(40))]);
    assert_eq!(bindings[1], vec![(0u64, sym(41))]);
}

#[test]
fn create_block_seeds_and_trims_symbols() {
    let logic = BiscuitLogic::new(simple_authority(), vec![]);
    let mut block = logic.create_block();
    assert_eq!(block.index, 1);
    // seeded with the full cumulative vocabulary
    assert_eq!(
        block.symbols.symbols,
        vec!["authority", "ambient", "file1", "read", "right"]
    );
    block.symbol_insert("resource");
    logic.adjust_block_symbols(&mut block);
    // only the genuinely new symbol survives for the wire
    assert_eq!(block.symbols.symbols, vec!["resource"]);
}
