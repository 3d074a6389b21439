//! Blocks and the two-phase verifier protocol.
//!
//! The verifier owns the authority block, the ordered attenuation blocks and
//! the cumulative symbol table. A check runs in three phases: the authority
//! phase asserts and closes the root facts (failing fast on any fact outside
//! the authority scope, before and after closure), the ambient phase merges
//! the caller-supplied request context (failing fast on mis-scoped input),
//! and the chain phase checks every attenuation block in isolation against
//! a clone of the resulting baseline world, aggregating all failures.

use vstd::prelude::*;

use crate::datalog::ID;
use crate::datalog::Fact;
use crate::datalog::Rule;
use crate::datalog::World;
use crate::datalog::PredicateModel;
use crate::datalog::RuleModel;
use crate::datalog::WorldModel;
use crate::datalog::fact_views;
use crate::datalog::rule_views;
use crate::symbols::SymbolTable;
use crate::symbols::default_symbol_table;
use crate::symbols::first_occ;

verus! {

/// The trust context in which a scope violation was detected.
#[derive(Clone, Copy, PartialEq, Eq, Structural, Debug)]
pub enum Phase {
    Authority,
    Ambient,
    Block { index: usize },
}

/// An authorization failure, carrying the offending item for diagnostics.
#[derive(Debug)]
pub enum Error {
    /// A fact's scope tag is inconsistent with the phase asserting it.
    ScopeViolation { phase: Phase, fact: Fact },
    /// Authority-phase closure derived a fact escaping the authority scope.
    TrustBoundaryViolation { fact: Fact },
    /// A caveat query returned no satisfying binding.
    CaveatFailure { block: usize, caveat: usize, rule: Rule },
}

/// Mathematical model of an authorization failure.
pub enum ErrorModel {
    ScopeViolation { phase: Phase, fact: PredicateModel },
    TrustBoundaryViolation { fact: PredicateModel },
    CaveatFailure { block: int, caveat: int, rule: RuleModel },
}

impl View for Error {
    type V = ErrorModel;

    open spec fn view(&self) -> ErrorModel {
        match self {
            Error::ScopeViolation { phase, fact } => ErrorModel::ScopeViolation {
                phase: *phase,
                fact: fact@,
            },
            Error::TrustBoundaryViolation { fact } => ErrorModel::TrustBoundaryViolation {
                fact: fact@,
            },
            Error::CaveatFailure { block, caveat, rule } => ErrorModel::CaveatFailure {
                block: *block as int,
                caveat: *caveat as int,
                rule: rule@,
            },
        }
    }
}

/// The models of a list of errors.
pub open spec fn error_views(s: Seq<Error>) -> Seq<ErrorModel> {
    s.map_values(|e: Error| e@)
}

/// Whether argument 0 of `f` is the symbol `tag`. A fact with no arguments
/// carries no scope tag at all.
pub open spec fn has_scope_tag(f: PredicateModel, tag: u64) -> bool {
    f.ids.len() > 0 && f.ids[0] == ID::Symbol(tag)
}

/// Whether every fact carries the scope tag `tag`.
pub open spec fn all_tagged(facts: Seq<PredicateModel>, tag: u64) -> bool {
    forall|j: int| 0 <= j < facts.len() ==> has_scope_tag(#[trigger] facts[j], tag)
}

/// Index of the first fact not tagged with `tag`; meaningful only when
/// `!all_tagged(facts, tag)`.
pub open spec fn first_untagged(facts: Seq<PredicateModel>, tag: u64) -> int
    decreases facts.len(),
{
    if facts.len() == 0 {
        0
    } else if !has_scope_tag(facts[0], tag) {
        0
    } else {
        1 + first_untagged(facts.skip(1), tag)
    }
}

pub proof fn lemma_first_untagged_found(facts: Seq<PredicateModel>, tag: u64, i: int)
    requires
        0 <= i < facts.len(),
        !has_scope_tag(facts[i], tag),
        forall|j: int| 0 <= j < i ==> has_scope_tag(#[trigger] facts[j], tag),
    ensures
        first_untagged(facts, tag) == i,
        !all_tagged(facts, tag),
    decreases facts.len(),
{
    if i > 0 {
        assert(facts.skip(1)[i - 1] == facts[i]);
        assert forall|j: int| 0 <= j < i - 1 implies has_scope_tag(
            #[trigger] facts.skip(1)[j],
            tag,
        ) by {
            assert(facts.skip(1)[j] == facts[j + 1]);
        }
        lemma_first_untagged_found(facts.skip(1), tag, i - 1);
    }
}

/// Whether a block-local fact claims one of the reserved scopes.
pub open spec fn is_reserved(f: PredicateModel, auth: u64, amb: u64) -> bool {
    has_scope_tag(f, auth) || has_scope_tag(f, amb)
}

/// Whether some block-local fact impersonates a higher-trust scope.
pub open spec fn any_reserved(facts: Seq<PredicateModel>, auth: u64, amb: u64) -> bool {
    exists|j: int| 0 <= j < facts.len() && is_reserved(#[trigger] facts[j], auth, amb)
}

/// Index of the first fact claiming a reserved scope; meaningful only when
/// `any_reserved(facts, auth, amb)`.
pub open spec fn first_reserved(facts: Seq<PredicateModel>, auth: u64, amb: u64) -> int
    decreases facts.len(),
{
    if facts.len() == 0 {
        0
    } else if is_reserved(facts[0], auth, amb) {
        0
    } else {
        1 + first_reserved(facts.skip(1), auth, amb)
    }
}

pub proof fn lemma_first_reserved_found(facts: Seq<PredicateModel>, auth: u64, amb: u64, i: int)
    requires
        0 <= i < facts.len(),
        is_reserved(facts[i], auth, amb),
        forall|j: int| 0 <= j < i ==> !is_reserved(#[trigger] facts[j], auth, amb),
    ensures
        first_reserved(facts, auth, amb) == i,
        any_reserved(facts, auth, amb),
    decreases facts.len(),
{
    if i > 0 {
        assert(facts.skip(1)[i - 1] == facts[i]);
        assert forall|j: int| 0 <= j < i - 1 implies !is_reserved(
            #[trigger] facts.skip(1)[j],
            auth,
            amb,
        ) by {
            assert(facts.skip(1)[j] == facts[j + 1]);
        }
        lemma_first_reserved_found(facts.skip(1), auth, amb, i - 1);
    }
}

/// The id of the reserved "authority" scope name in table `t`.
pub open spec fn auth_id(t: Seq<Seq<char>>) -> u64 {
    first_occ(t, "authority"@) as u64
}

/// The id of the reserved "ambient" scope name in table `t`.
pub open spec fn amb_id(t: Seq<Seq<char>>) -> u64 {
    first_occ(t, "ambient"@) as u64
}

/// Tests whether argument 0 of `f` is the symbol `tag`.
pub fn fact_has_tag(f: &Fact, tag: u64) -> (r: bool)
    ensures
        r == has_scope_tag(f@, tag),
{
    if f.0.ids.len() == 0 {
        false
    } else {
        let t = f.0.ids[0];
        t == ID::Symbol(tag)
    }
}

/// `fs` with every fact of `add` asserted in order, deduplicated.
pub open spec fn insert_all_model(fs: Seq<PredicateModel>, add: Seq<PredicateModel>) -> Seq<
    PredicateModel,
>
    decreases add.len(),
{
    if add.len() == 0 {
        fs
    } else {
        insert_all_model(crate::datalog::insert_fact_model(fs, add[0]), add.skip(1))
    }
}

/// The failures of the caveats of index `j` onward, queried against the
/// closed fact base, in declaration order.
pub open spec fn caveat_errors_model(
    closed: Seq<PredicateModel>,
    caveats: Seq<RuleModel>,
    i: usize,
    j: int,
) -> Seq<ErrorModel>
    decreases caveats.len() - j,
{
    if j < 0 || j >= caveats.len() {
        Seq::empty()
    } else {
        let rest = caveat_errors_model(closed, caveats, i, j + 1);
        if crate::datalog::query_rule_model(closed, caveats[j]).len() == 0 {
            seq![
                ErrorModel::CaveatFailure { block: i as int, caveat: j, rule: caveats[j] },
            ] + rest
        } else {
            rest
        }
    }
}

/// An ordered unit of a token chain: a symbol-table fragment, the facts it
/// asserts in its own scope, and the caveats it imposes.
#[derive(Clone, Debug)]
pub struct Block {
    pub index: u32,
    pub symbols: SymbolTable,
    pub facts: Vec<Fact>,
    pub caveats: Vec<Rule>,
}

/// Mathematical model of a block.
pub struct BlockModel {
    pub index: u32,
    pub symbols: Seq<Seq<char>>,
    pub facts: Seq<PredicateModel>,
    pub caveats: Seq<RuleModel>,
}

impl View for Block {
    type V = BlockModel;

    open spec fn view(&self) -> BlockModel {
        BlockModel {
            index: self.index,
            symbols: self.symbols@,
            facts: fact_views(self.facts@),
            caveats: rule_views(self.caveats@),
        }
    }
}

/// The models of a list of blocks.
pub open spec fn block_views(s: Seq<Block>) -> Seq<BlockModel> {
    s.map_values(|b: Block| b@)
}

/// Outcome of checking one attenuation block at position `i` against the
/// baseline world `w`: empty iff the block passes. Local facts may not
/// impersonate a reserved scope; the surviving facts are merged, the base is
/// closed under the inherited (ambient) rules, and every caveat must then
/// have a satisfying binding.
pub open spec fn block_check_model(
    b: BlockModel,
    i: usize,
    w: WorldModel,
    auth: u64,
    amb: u64,
) -> Seq<ErrorModel> {
    if any_reserved(b.facts, auth, amb) {
        seq![
            ErrorModel::ScopeViolation {
                phase: Phase::Block { index: i },
                fact: b.facts[first_reserved(b.facts, auth, amb)],
            },
        ]
    } else {
        let merged = insert_all_model(w.facts, b.facts);
        let closed = crate::datalog::closure_model(merged, w.rules, crate::datalog::eval_fuel());
        caveat_errors_model(closed, b.caveats, i, 0)
    }
}

impl Block {
    pub fn new(index: u32, base_symbols: SymbolTable) -> (r: Block)
        ensures
            r@.index == index,
            r@.symbols == base_symbols@,
            r@.facts == Seq::<PredicateModel>::empty(),
            r@.caveats == Seq::<RuleModel>::empty(),
    {
        let r = Block { index, symbols: base_symbols, facts: Vec::new(), caveats: Vec::new() };
        proof {
            assert(r@.facts =~= Seq::<PredicateModel>::empty());
            assert(r@.caveats =~= Seq::<RuleModel>::empty());
        }
        r
    }

    /// Interns `s` in the block's table and wraps it as a symbol term.
    pub fn symbol_add(&mut self, s: &str) -> (r: ID)
        ensures
            old(self)@.symbols.contains(s@) ==> final(self)@.symbols == old(self)@.symbols && r
                == ID::Symbol(first_occ(old(self)@.symbols, s@) as u64),
            !old(self)@.symbols.contains(s@) ==> final(self)@.symbols == old(
                self,
            )@.symbols.push(s@) && r == ID::Symbol(old(self)@.symbols.len() as u64),
            final(self)@.index == old(self)@.index,
            final(self)@.facts == old(self)@.facts,
            final(self)@.caveats == old(self)@.caveats,
    {
        self.symbols.add(s)
    }

    /// Interns `s` in the block's table and returns its id.
    pub fn symbol_insert(&mut self, s: &str) -> (r: u64)
        ensures
            old(self)@.symbols.contains(s@) ==> final(self)@.symbols == old(self)@.symbols && r
                as int == first_occ(old(self)@.symbols, s@),
            !old(self)@.symbols.contains(s@) ==> final(self)@.symbols == old(
                self,
            )@.symbols.push(s@) && r as int == old(self)@.symbols.len(),
            final(self)@.index == old(self)@.index,
            final(self)@.facts == old(self)@.facts,
            final(self)@.caveats == old(self)@.caveats,
    {
        self.symbols.insert(s)
    }

    /// Checks this block at chain position `i` against its own clone of the
    /// baseline world, per `block_check_model`. Every caveat is evaluated;
    /// nothing stops at the first failure.
    pub fn check(&self, i: usize, world: World, symbols: &SymbolTable) -> (r: Result<
        (),
        Vec<Error>,
    >)
        requires
            symbols@.contains("authority"@),
            symbols@.contains("ambient"@),
        ensures
            ({
                let m = block_check_model(self@, i, world@, auth_id(symbols@), amb_id(symbols@));
                match r {
                    Ok(()) => m.len() == 0,
                    Err(es) => error_views(es@) == m && es@.len() > 0,
                }
            }),
    {
        let ghost w0 = world@;
        let ghost fv = self@.facts;
        let auth: u64 = match symbols.get("authority") {
            Some(a) => a,
            None => {
                proof {
                    assert(false);
                }
                0
            },
        };
        let amb: u64 = match symbols.get("ambient") {
            Some(a) => a,
            None => {
                proof {
                    assert(false);
                }
                0
            },
        };
        let mut world = world;
        let n: usize = self.facts.len();
        proof {
            assert(fv.skip(0) =~= fv);
        }
        let mut j: usize = 0;
        while j < n
            invariant
                n == self.facts@.len(),
                fv == self@.facts,
                auth == auth_id(symbols@),
                amb == amb_id(symbols@),
                0 <= j <= n,
                forall|t: int| 0 <= t < j ==> !is_reserved(#[trigger] fv[t], auth, amb),
                insert_all_model(world@.facts, fv.skip(j as int)) == insert_all_model(
                    w0.facts,
                    fv,
                ),
                world@.rules == w0.rules,
            decreases n - j,
        {
            proof {
                assert(fv.skip(j as int)[0] == fv[j as int]);
                assert(fv.skip(j as int).skip(1) =~= fv.skip(j as int + 1));
                assert(self.facts@[j as int]@ == fv[j as int]);
            }
            let f = crate::datalog::copy_fact(&self.facts[j]);
            if fact_has_tag(&f, auth) || fact_has_tag(&f, amb) {
                proof {
                    lemma_first_reserved_found(fv, auth, amb, j as int);
                }
                let mut es: Vec<Error> = Vec::new();
                es.push(
                    Error::ScopeViolation { phase: Phase::Block { index: i }, fact: f },
                );
                proof {
                    assert(error_views(es@) =~= block_check_model(
                        self@,
                        i,
                        w0,
                        auth_id(symbols@),
                        amb_id(symbols@),
                    ));
                }
                return Err(es);
            }
            world.insert(f);
            j += 1;
        }
        proof {
            assert(fv.skip(n as int) =~= Seq::<PredicateModel>::empty());
            assert(!any_reserved(fv, auth, amb));
        }
        world.run();
        let ghost closed = world@.facts;
        let ghost cavs = self@.caveats;
        let mut errors: Vec<Error> = Vec::new();
        let nc: usize = self.caveats.len();
        let mut j: usize = 0;
        while j < nc
            invariant
                nc == self.caveats@.len(),
                cavs == self@.caveats,
                closed == world@.facts,
                0 <= j <= nc,
                error_views(errors@) + caveat_errors_model(closed, cavs, i, j as int)
                    == caveat_errors_model(closed, cavs, i, 0),
            decreases nc - j,
        {
            proof {
                assert(self.caveats@[j as int]@ == cavs[j as int]);
            }
            let res = world.query_rule(&self.caveats[j]);
            if res.len() == 0 {
                let ghost prev = error_views(errors@);
                let e = Error::CaveatFailure {
                    block: i,
                    caveat: j,
                    rule: crate::datalog::copy_rule(&self.caveats[j]),
                };
                proof {
                    assert(crate::datalog::binding_views(res@).len() == 0);
                }
                errors.push(e);
                proof {
                    assert(error_views(errors@) =~= prev.push(
                        ErrorModel::CaveatFailure {
                            block: i as int,
                            caveat: j as int,
                            rule: cavs[j as int],
                        },
                    ));
                    assert(prev.push(
                        ErrorModel::CaveatFailure {
                            block: i as int,
                            caveat: j as int,
                            rule: cavs[j as int],
                        },
                    ) + caveat_errors_model(closed, cavs, i, j as int + 1) =~= prev + (seq![
                        ErrorModel::CaveatFailure {
                            block: i as int,
                            caveat: j as int,
                            rule: cavs[j as int],
                        },
                    ] + caveat_errors_model(closed, cavs, i, j as int + 1)));
                }
            }
            j += 1;
        }
        if errors.len() == 0 {
            proof {
                assert(error_views(errors@).len() == 0);
            }
            Ok(())
        } else {
            proof {
                assert(error_views(errors@).len() > 0);
            }
            Err(errors)
        }
    }
}

/// The cumulative symbol fragments of the blocks from position `k` onward,
/// in chain order.
pub open spec fn chain_symbols(blocks: Seq<BlockModel>, k: int) -> Seq<Seq<char>>
    decreases blocks.len() - k,
{
    if k < 0 || k >= blocks.len() {
        Seq::empty()
    } else {
        blocks[k].symbols + chain_symbols(blocks, k + 1)
    }
}

/// The world every attenuation block is checked against: the authority
/// facts closed under the authority caveats (used once as derivation
/// rules), merged with the ambient facts and closed again under the
/// authority caveats plus the ambient rules; only the ambient rules are
/// kept for the per-block queries.
pub open spec fn baseline_world_model(
    authority: BlockModel,
    af: Seq<PredicateModel>,
    ar: Seq<RuleModel>,
) -> WorldModel {
    let closed1 = crate::datalog::closure_model(
        insert_all_model(Seq::empty(), authority.facts),
        authority.caveats,
        crate::datalog::eval_fuel(),
    );
    let closed2 = crate::datalog::closure_model(
        insert_all_model(closed1, af),
        authority.caveats + ar,
        crate::datalog::eval_fuel(),
    );
    WorldModel { facts: closed2, rules: ar }
}

/// The aggregated failures of the blocks from position `k` onward, each
/// checked against its own copy of the baseline world `w`.
pub open spec fn chain_errors_model(
    blocks: Seq<BlockModel>,
    k: int,
    w: WorldModel,
    auth: u64,
    amb: u64,
) -> Seq<ErrorModel>
    decreases blocks.len() - k,
{
    if k < 0 || k >= blocks.len() {
        Seq::empty()
    } else {
        block_check_model(blocks[k], k as usize, w, auth, amb) + chain_errors_model(
            blocks,
            k + 1,
            w,
            auth,
            amb,
        )
    }
}

/// Outcome of the whole two-phase check: empty iff the token authorizes the
/// request. The authority and ambient phases fail fast on the first scope
/// or trust-boundary violation; the chain phase aggregates every failure of
/// every block.
pub open spec fn verifier_check_model(
    authority: BlockModel,
    blocks: Seq<BlockModel>,
    syms: Seq<Seq<char>>,
    af: Seq<PredicateModel>,
    ar: Seq<RuleModel>,
) -> Seq<ErrorModel> {
    let auth = auth_id(syms);
    let amb = amb_id(syms);
    if !all_tagged(authority.facts, auth) {
        seq![
            ErrorModel::ScopeViolation {
                phase: Phase::Authority,
                fact: authority.facts[first_untagged(authority.facts, auth)],
            },
        ]
    } else {
        let closed1 = crate::datalog::closure_model(
            insert_all_model(Seq::empty(), authority.facts),
            authority.caveats,
            crate::datalog::eval_fuel(),
        );
        if !all_tagged(closed1, auth) {
            seq![
                ErrorModel::TrustBoundaryViolation {
                    fact: closed1[first_untagged(closed1, auth)],
                },
            ]
        } else if !all_tagged(af, amb) {
            seq![
                ErrorModel::ScopeViolation {
                    phase: Phase::Ambient,
                    fact: af[first_untagged(af, amb)],
                },
            ]
        } else {
            chain_errors_model(blocks, 0, baseline_world_model(authority, af, ar), auth, amb)
        }
    }
}

/// The verifier: authority block, ordered attenuation blocks, cumulative
/// symbol table. Immutable once constructed, except for the construction-
/// time symbol helpers.
#[derive(Debug)]
pub struct BiscuitLogic {
    authority: Block,
    blocks: Vec<Block>,
    symbols: SymbolTable,
}

/// Mathematical model of a verifier.
pub struct BiscuitLogicModel {
    pub authority: BlockModel,
    pub blocks: Seq<BlockModel>,
    pub symbols: Seq<Seq<char>>,
}

impl View for BiscuitLogic {
    type V = BiscuitLogicModel;

    closed spec fn view(&self) -> BiscuitLogicModel {
        BiscuitLogicModel {
            authority: self.authority@,
            blocks: block_views(self.blocks@),
            symbols: self.symbols@,
        }
    }
}

impl BiscuitLogic {
    /// The cumulative table always starts with the two reserved names.
    pub open spec fn wf(&self) -> bool {
        self@.symbols.contains("authority"@) && self@.symbols.contains("ambient"@)
    }

    /// Builds a verifier from a verified chain, reconstructing the
    /// cumulative symbol table by merging, in chain order, the reserved
    /// bootstrap names, the authority fragment and every block's fragment.
    pub fn new(authority: Block, blocks: Vec<Block>) -> (r: BiscuitLogic)
        ensures
            r@.authority == authority@,
            r@.blocks == block_views(blocks@),
            r@.symbols == seq!["authority"@, "ambient"@] + authority@.symbols + chain_symbols(
                block_views(blocks@),
                0,
            ),
            r.wf(),
    {
        let ghost bv = block_views(blocks@);
        let mut symbols = default_symbol_table();
        symbols.extend_from(&authority.symbols);
        let ghost base0 = seq!["authority"@, "ambient"@] + authority@.symbols;
        proof {
            assert(symbols@ == base0);
        }
        let n: usize = blocks.len();
        let mut k: usize = 0;
        while k < n
            invariant
                n == blocks@.len(),
                bv == block_views(blocks@),
                0 <= k <= n,
                symbols@ + chain_symbols(bv, k as int) == base0 + chain_symbols(bv, 0),
            decreases n - k,
        {
            proof {
                assert(blocks@[k as int]@ == bv[k as int]);
            }
            let ghost prev = symbols@;
            symbols.extend_from(&blocks[k].symbols);
            proof {
                assert(symbols@ + chain_symbols(bv, k as int + 1) =~= prev + chain_symbols(
                    bv,
                    k as int,
                ));
            }
            k += 1;
        }
        proof {
            assert(chain_symbols(bv, n as int) =~= Seq::<Seq<char>>::empty());
            assert(symbols@ + Seq::<Seq<char>>::empty() =~= symbols@);
        }
        let r = BiscuitLogic { authority, blocks, symbols };
        proof {
            assert(r@.symbols[0] == "authority"@);
            assert(r@.symbols[1] == "ambient"@);
            assert(r@.symbols.contains("authority"@));
            assert(r@.symbols.contains("ambient"@));
        }
        r
    }
}

impl BiscuitLogic {
    /// Allocates the next attenuation block, seeded with the verifier's full
    /// cumulative symbol table so its author can reference any previously
    /// defined symbol by name.
    pub fn create_block(&self) -> (r: Block)
        requires
            self@.blocks.len() < 0xffff_ffff,
        ensures
            r@.index == 1 + self@.blocks.len(),
            r@.symbols == self@.symbols,
            r@.facts == Seq::<PredicateModel>::empty(),
            r@.caveats == Seq::<RuleModel>::empty(),
    {
        Block::new((1 + self.blocks.len()) as u32, self.symbols.duplicate())
    }

    /// Strips the two reserved bootstrap names back out of a freshly built
    /// authority block, leaving only the symbols it introduced.
    pub fn adjust_authority_symbols(block: &mut Block)
        requires
            old(block)@.symbols.len() >= 2,
        ensures
            final(block)@.symbols == old(block)@.symbols.skip(2),
            final(block)@.index == old(block)@.index,
            final(block)@.facts == old(block)@.facts,
            final(block)@.caveats == old(block)@.caveats,
    {
        let base = default_symbol_table();
        let n: usize = base.len();
        let frag = block.symbols.split_delta(n);
        block.symbols = frag;
        proof {
            assert(final(block)@.symbols =~= old(block)@.symbols.skip(2));
        }
    }

    /// Strips the merged prefix (root plus all prior blocks) from a freshly
    /// authored block, retaining only its genuinely new symbols for the
    /// wire.
    pub fn adjust_block_symbols(&self, block: &mut Block)
        requires
            old(block)@.symbols.len() >= self@.symbols.len(),
        ensures
            final(block)@.symbols == old(block)@.symbols.skip(self@.symbols.len() as int),
            final(block)@.index == old(block)@.index,
            final(block)@.facts == old(block)@.facts,
            final(block)@.caveats == old(block)@.caveats,
    {
        let n: usize = self.symbols.len();
        let frag = block.symbols.split_delta(n);
        block.symbols = frag;
        proof {
            assert(final(block)@.symbols =~= old(block)@.symbols.skip(self@.symbols.len() as int));
        }
    }

    /// The two-phase check: authority phase (scoped assertion, closure,
    /// trust-boundary re-check), ambient phase (scoped merge of the request
    /// context, closure, rule reset), then every attenuation block in
    /// isolation, with all failures aggregated. Returns `Ok` iff the model
    /// outcome is empty.
    #[verifier::loop_isolation(false)]
    pub fn check(&self, ambient_facts: Vec<Fact>, ambient_rules: Vec<Rule>) -> (r: Result<
        (),
        Vec<Error>,
    >)
        requires
            self.wf(),
        ensures
            ({
                let m = verifier_check_model(
                    self@.authority,
                    self@.blocks,
                    self@.symbols,
                    fact_views(ambient_facts@),
                    rule_views(ambient_rules@),
                );
                match r {
                    Ok(()) => m.len() == 0,
                    Err(es) => error_views(es@) == m && es@.len() > 0,
                }
            }),
    {
        let ghost afv = fact_views(ambient_facts@);
        let ghost arv = rule_views(ambient_rules@);
        let ghost av = self@.authority.facts;
        let ghost acv = self@.authority.caveats;
        let auth: u64 = match self.symbols.get("authority") {
            Some(a) => a,
            None => {
                proof {
                    assert(false);
                }
                0
            },
        };
        let amb: u64 = match self.symbols.get("ambient") {
            Some(a) => a,
            None => {
                proof {
                    assert(false);
                }
                0
            },
        };
        let mut world = World::new();

        // Phase A: every authority fact must carry the authority tag.
        let n: usize = self.authority.facts.len();
        proof {
            assert(av.skip(0) =~= av);
        }
        let mut j: usize = 0;
        while j < n
            invariant
                n == self.authority.facts@.len(),
                av == self@.authority.facts,
                auth == auth_id(self@.symbols),
                0 <= j <= n,
                forall|t: int| 0 <= t < j ==> has_scope_tag(#[trigger] av[t], auth),
                insert_all_model(world@.facts, av.skip(j as int)) == insert_all_model(
                    Seq::<PredicateModel>::empty(),
                    av,
                ),
                world@.rules == Seq::<RuleModel>::empty(),
            decreases n - j,
        {
            proof {
                assert(av.skip(j as int)[0] == av[j as int]);
                assert(av.skip(j as int).skip(1) =~= av.skip(j as int + 1));
                assert(self.authority.facts@[j as int]@ == av[j as int]);
            }
            let f = crate::datalog::copy_fact(&self.authority.facts[j]);
            if !fact_has_tag(&f, auth) {
                proof {
                    lemma_first_untagged_found(av, auth, j as int);
                }
                let mut es: Vec<Error> = Vec::new();
                es.push(Error::ScopeViolation { phase: Phase::Authority, fact: f });
                proof {
                    assert(error_views(es@) =~= verifier_check_model(
                        self@.authority,
                        self@.blocks,
                        self@.symbols,
                        afv,
                        arv,
                    ));
                }
                return Err(es);
            }
            world.insert(f);
            j += 1;
        }
        proof {
            assert(av.skip(n as int) =~= Seq::<PredicateModel>::empty());
            assert(all_tagged(av, auth));
        }

        // Authority caveats act once as derivation rules.
        let nc: usize = self.authority.caveats.len();
        let mut j: usize = 0;
        while j < nc
            invariant
                nc == self.authority.caveats@.len(),
                acv == self@.authority.caveats,
                0 <= j <= nc,
                world@.facts == insert_all_model(Seq::<PredicateModel>::empty(), av),
                world@.rules == acv.take(j as int),
            decreases nc - j,
        {
            proof {
                assert(self.authority.caveats@[j as int]@ == acv[j as int]);
            }
            let c = crate::datalog::copy_rule(&self.authority.caveats[j]);
            world.add_rule(c);
            proof {
                assert(world@.rules =~= acv.take(j as int + 1));
            }
            j += 1;
        }
        proof {
            assert(acv.take(nc as int) =~= acv);
        }
        world.run();
        let ghost closed1 = world@.facts;

        // Closure may derive facts the surface syntax did not show: every
        // fact must still be inside the authority scope.
        let nw: usize = world.facts.len();
        let mut j: usize = 0;
        while j < nw
            invariant
                nw == world.facts@.len(),
                closed1 == world@.facts,
                auth == auth_id(self@.symbols),
                0 <= j <= nw,
                forall|t: int| 0 <= t < j ==> has_scope_tag(#[trigger] closed1[t], auth),
            decreases nw - j,
        {
            proof {
                assert(world.facts@[j as int]@ == closed1[j as int]);
            }
            let tagged = fact_has_tag(&world.facts[j], auth);
            if !tagged {
                proof {
                    lemma_first_untagged_found(closed1, auth, j as int);
                }
                let f = crate::datalog::copy_fact(&world.facts[j]);
                let mut es: Vec<Error> = Vec::new();
                es.push(Error::TrustBoundaryViolation { fact: f });
                proof {
                    assert(error_views(es@) =~= verifier_check_model(
                        self@.authority,
                        self@.blocks,
                        self@.symbols,
                        afv,
                        arv,
                    ));
                }
                return Err(es);
            }
            j += 1;
        }
        proof {
            assert(all_tagged(closed1, auth));
        }

        // Phase B: caller-supplied ambient facts must carry the ambient tag.
        let na: usize = ambient_facts.len();
        proof {
            assert(afv.skip(0) =~= afv);
        }
        let mut j: usize = 0;
        while j < na
            invariant
                na == ambient_facts@.len(),
                afv == fact_views(ambient_facts@),
                amb == amb_id(self@.symbols),
                0 <= j <= na,
                forall|t: int| 0 <= t < j ==> has_scope_tag(#[trigger] afv[t], amb),
                insert_all_model(world@.facts, afv.skip(j as int)) == insert_all_model(
                    closed1,
                    afv,
                ),
                world@.rules == acv,
            decreases na - j,
        {
            proof {
                assert(afv.skip(j as int)[0] == afv[j as int]);
                assert(afv.skip(j as int).skip(1) =~= afv.skip(j as int + 1));
                assert(ambient_facts@[j as int]@ == afv[j as int]);
            }
            let f = crate::datalog::copy_fact(&ambient_facts[j]);
            if !fact_has_tag(&f, amb) {
                proof {
                    lemma_first_untagged_found(afv, amb, j as int);
                }
                let mut es: Vec<Error> = Vec::new();
                es.push(Error::ScopeViolation { phase: Phase::Ambient, fact: f });
                proof {
                    assert(error_views(es@) =~= verifier_check_model(
                        self@.authority,
                        self@.blocks,
                        self@.symbols,
                        afv,
                        arv,
                    ));
                }
                return Err(es);
            }
            world.insert(f);
            j += 1;
        }
        proof {
            assert(afv.skip(na as int) =~= Seq::<PredicateModel>::empty());
            assert(all_tagged(afv, amb));
        }

        // Ambient rules join the authority caveats for this closure only.
        let nr: usize = ambient_rules.len();
        let mut j: usize = 0;
        while j < nr
            invariant
                nr == ambient_rules@.len(),
                arv == rule_views(ambient_rules@),
                0 <= j <= nr,
                world@.facts == insert_all_model(closed1, afv),
                world@.rules == acv + arv.take(j as int),
            decreases nr - j,
        {
            proof {
                assert(ambient_rules@[j as int]@ == arv[j as int]);
            }
            let c = crate::datalog::copy_rule(&ambient_rules[j]);
            world.add_rule(c);
            proof {
                assert(world@.rules =~= acv + arv.take(j as int + 1));
            }
            j += 1;
        }
        proof {
            assert(acv + arv.take(nr as int) =~= acv + arv);
        }
        world.run();

        // Authority caveats must not leak into the per-block queries: only
        // the caller-supplied rules survive.
        let mut kept: Vec<Rule> = Vec::new();
        let mut j: usize = 0;
        while j < nr
            invariant
                nr == ambient_rules@.len(),
                arv == rule_views(ambient_rules@),
                0 <= j <= nr,
                rule_views(kept@) == arv.take(j as int),
            decreases nr - j,
        {
            proof {
                assert(ambient_rules@[j as int]@ == arv[j as int]);
            }
            let c = crate::datalog::copy_rule(&ambient_rules[j]);
            kept.push(c);
            proof {
                assert(rule_views(kept@) =~= arv.take(j as int + 1));
            }
            j += 1;
        }
        world.rules = kept;
        proof {
            assert(arv.take(nr as int) =~= arv);
            assert(world@ == baseline_world_model(self@.authority, afv, arv));
        }

        // Phase C: each block checked against its own clone of the baseline.
        let ghost bv = self@.blocks;
        let ghost wb = world@;
        let mut errors: Vec<Error> = Vec::new();
        let nb: usize = self.blocks.len();
        let mut k: usize = 0;
        while k < nb
            invariant
                nb == self.blocks@.len(),
                bv == self@.blocks,
                wb == world@,
                auth == auth_id(self@.symbols),
                amb == amb_id(self@.symbols),
                self.wf(),
                0 <= k <= nb,
                error_views(errors@) + chain_errors_model(bv, k as int, wb, auth, amb)
                    == chain_errors_model(bv, 0, wb, auth, amb),
            decreases nb - k,
        {
            proof {
                assert(self.blocks@[k as int]@ == bv[k as int]);
            }
            let ghost prev = error_views(errors@);
            let w = world.duplicate();
            match self.blocks[k].check(k, w, &self.symbols) {
                Err(mut es) => {
                    let ghost esv = error_views(es@);
                    errors.append(&mut es);
                    proof {
                        assert(error_views(errors@) =~= prev + esv);
                        assert((prev + esv) + chain_errors_model(bv, k as int + 1, wb, auth, amb)
                            =~= prev + (esv + chain_errors_model(bv, k as int + 1, wb, auth, amb)));
                    }
                },
                Ok(()) => {
                    proof {
                        assert(block_check_model(bv[k as int], k, wb, auth, amb)
                            =~= Seq::<ErrorModel>::empty());
                        assert(Seq::<ErrorModel>::empty() + chain_errors_model(
                            bv,
                            k as int + 1,
                            wb,
                            auth,
                            amb,
                        ) =~= chain_errors_model(bv, k as int + 1, wb, auth, amb));
                    }
                },
            }
            k += 1;
        }
        proof {
            assert(chain_errors_model(bv, nb as int, wb, auth, amb) =~= Seq::<ErrorModel>::empty());
            assert(error_views(errors@) + Seq::<ErrorModel>::empty() =~= error_views(errors@));
        }
        if errors.len() == 0 {
            proof {
                assert(error_views(errors@).len() == 0);
            }
            Ok(())
        } else {
            proof {
                assert(error_views(errors@).len() > 0);
            }
            Err(errors)
        }
    }
}

} // verus!
