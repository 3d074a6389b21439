use biscuit_poc::datalog::{fact, pred, rule, var, ID};
use biscuit_poc::symbols::{default_symbol_table, SymbolTable};

#[test]
fn interning_is_append_only_and_idempotent() {
    let mut t = SymbolTable::new();
    assert_eq!(t.insert("alpha"), 0);
    assert_eq!(t.insert("beta"), 1);
    assert_eq!(t.insert("alpha"), 0);
    assert_eq!(t.insert("gamma"), 2);
    assert_eq!(t.symbols, vec!["alpha", "beta", "gamma"]);
    assert_eq!(t.get("beta"), Some(1));
    assert_eq!(t.get("delta"), None);
}

#[test]
fn default_table_reserves_the_scope_names() {
    let t = default_symbol_table();
    assert_eq!(t.symbols, vec!["authority", "ambient"]);
    assert_eq!(t.get("authority"), Some(0));
    assert_eq!(t.get("ambient"), Some(1));
}

#[test]
fn split_delta_round_trip() {
    // cumulative table T
    let mut t = SymbolTable::new();
    t.insert("authority");
    t.insert("ambient");
    t.insert("file1");
    let base_len = t.len();

    // extension T' of T
    let mut t2 = t.duplicate();
    t2.insert("resource");
    t2.insert("operation");
    let full = t2.symbols.clone();

    // splitting at len(T) leaves exactly T and returns the novelty
    let fragment = t2.split_delta(base_len);
    assert_eq!(t2.symbols, t.symbols);
    assert_eq!(fragment.symbols, vec!["resource", "operation"]);

    // re-appending the fragment reconstructs T' exactly
    t2.extend_from(&fragment);
    assert_eq!(t2.symbols, full);
}

#[test]
fn split_delta_of_whole_table_leaves_nothing() {
    let mut t = default_symbol_table();
    let n = t.len();
    let fragment = t.split_delta(n);
    assert_eq!(t.symbols, vec!["authority", "ambient"]);
    assert_eq!(fragment.symbols, Vec::<String>::new());
}

#[test]
fn rendering_resolves_ids_to_names() {
    let mut t = default_symbol_table();
    t.insert("file1");
    t.insert("read");
    t.insert("right");
    let f = fact(4, vec![ID::Symbol(0), ID::Symbol(2), ID::Symbol(3)]);
    assert_eq!(t.print_fact(&f), "right(authority, file1, read)");

    let r = rule(
        4,
        vec![var(7), ID::Integer(-12), ID::Date(3), ID::Symbol(100)],
        vec![pred(2, vec![ID::Symbol(1)]), pred(3, vec![ID::Integer(40)])],
    );
    assert_eq!(
        t.print_rule(&r),
        "right($7, -12, @3, #100) <- file1(ambient), read(40)"
    );
}
