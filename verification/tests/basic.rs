use biscuit_poc::datalog::{fact, pred, rule, var, Fact, ID};
use biscuit_poc::symbols::default_symbol_table;
use biscuit_poc::token::{BiscuitLogic, Block, Error};

// Reserved ids of the bootstrap table.
const AUTHORITY: u64 = 0;
const AMBIENT: u64 = 1;

// Ids interned by the authority block below.
const FILE1: u64 = 2;
const FILE2: u64 = 3;
const READ: u64 = 4;
const WRITE: u64 = 5;
const RIGHT: u64 = 6;

// Ids interned by the attenuation blocks below.
const RESOURCE: u64 = 7;
const OPERATION: u64 = 8;
const CAVEAT1: u64 = 9;
const CAVEAT2: u64 = 10;

fn sym(s: u64) -> ID {
    ID::Symbol(s)
}

/// The authority block of the scenario: rights to read file1 and file2 and
/// to write file1, with its symbol fragment already stripped for the wire.
fn authority_block() -> Block {
    let symbols = default_symbol_table();
    let mut b = Block::new(0, symbols);
    let authority = b.symbol_add("authority");
    let _ambient = b.symbol_add("ambient");
    let file1 = b.symbol_add("file1");
    let file2 = b.symbol_add("file2");
    let read = b.symbol_add("read");
    let write = b.symbol_add("write");
    let right = b.symbol_insert("right");
    assert_eq!(right, RIGHT);
    b.facts = vec![
        fact(right, vec![authority, file1, read]),
        fact(right, vec![authority, file2, read]),
        fact(right, vec![authority, file1, write]),
    ];
    BiscuitLogic::adjust_authority_symbols(&mut b);
    assert_eq!(b.symbols.symbols, vec!["file1", "file2", "read", "write", "right"]);
    b
}

/// Block 1 of the scenario: "for the ambient resource X, if the ambient
/// operation is read, X must appear with read in `right`".
fn read_caveat_block(logic: &BiscuitLogic) -> Block {
    let mut b = logic.create_block();
    let resource = b.symbol_insert("resource");
    let operation = b.symbol_insert("operation");
    let caveat1 = b.symbol_insert("caveat1");
    assert_eq!((resource, operation, caveat1), (RESOURCE, OPERATION, CAVEAT1));
    b.caveats.push(rule(
        caveat1,
        vec![var(0)],
        vec![
            pred(resource, vec![sym(AMBIENT), var(0)]),
            pred(operation, vec![sym(AMBIENT), sym(READ)]),
            pred(RIGHT, vec![sym(AUTHORITY), var(0), sym(READ)]),
        ],
    ));
    logic.adjust_block_symbols(&mut b);
    b
}

/// Block 2 of the scenario: "the ambient resource must be file1".
fn file1_caveat_block(logic: &BiscuitLogic) -> Block {
    let mut b = logic.create_block();
    let caveat2 = b.symbol_insert("caveat2");
    assert_eq!(caveat2, CAVEAT2);
    b.caveats.push(rule(
        caveat2,
        vec![sym(FILE1)],
        vec![pred(RESOURCE, vec![sym(AMBIENT), sym(FILE1)])],
    ));
    logic.adjust_block_symbols(&mut b);
    b
}

fn ambient_request(resource: u64, operation: u64) -> Vec<Fact> {
    vec![
        fact(RESOURCE, vec![sym(AMBIENT), sym(resource)]),
        fact(OPERATION, vec![sym(AMBIENT), sym(operation)]),
    ]
}

#[test]
fn basic() {
    let logic1 = BiscuitLogic::new(authority_block(), vec![]);
    let block2 = read_caveat_block(&logic1);

    let logic2 = BiscuitLogic::new(authority_block(), vec![block2]);
    let block3 = file1_caveat_block(&logic2);

    let block2_again = read_caveat_block(&logic1);
    let final_logic = BiscuitLogic::new(authority_block(), vec![block2_again, block3]);

    // read file1: both caveats satisfied
    let res1 = final_logic.check(ambient_request(FILE1, READ), vec![]);
    assert!(res1.is_ok());

    // write file2: block 1's caveat never unifies (operation is not read),
    // block 2's caveat fails (resource is not file1) -- both are reported
    let res2 = final_logic.check(ambient_request(FILE2, WRITE), vec![]);
    let errors = res2.unwrap_err();
    assert_eq!(errors.len(), 2);
    assert!(matches!(errors[0], Error::CaveatFailure { block: 0, caveat: 0, .. }));
    assert!(matches!(errors[1], Error::CaveatFailure { block: 1, caveat: 0, .. }));
}
