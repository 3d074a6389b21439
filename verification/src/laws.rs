//! Laws of the check protocol, proved over the models that the executable
//! functions are verified against.

use vstd::prelude::*;

use crate::datalog::ID;
use crate::datalog::PredicateModel;
use crate::datalog::RuleModel;
use crate::datalog::WorldModel;
use crate::datalog::extend_one_model;
use crate::datalog::extend_all_model;
use crate::datalog::query_body_model;
use crate::datalog::query_rule_model;
use crate::datalog::match_pred_model;
use crate::datalog::closure_model;
use crate::datalog::one_pass_model;
use crate::datalog::pass_rules_model;
use crate::datalog::push_derived_model;
use crate::datalog::subst_pred_model;
use crate::datalog::pred_is_ground;
use crate::datalog::insert_fact_model;
use crate::datalog::lemma_push_derived_extends;
use crate::datalog::lemma_pass_rules_extends;
use crate::datalog::lemma_one_pass_extends;
use crate::datalog::lemma_closure_extends;
use crate::datalog::eval_fuel;
use crate::token::ErrorModel;
use crate::token::BlockModel;
use crate::token::Phase;
use crate::token::has_scope_tag;
use crate::token::all_tagged;
use crate::token::first_untagged;
use crate::token::auth_id;
use crate::token::amb_id;
use crate::token::insert_all_model;
use crate::token::caveat_errors_model;
use crate::token::block_check_model;
use crate::token::chain_errors_model;
use crate::token::baseline_world_model;
use crate::token::verifier_check_model;

verus! {

pub proof fn lemma_first_untagged_props(facts: Seq<PredicateModel>, tag: u64)
    requires
        !all_tagged(facts, tag),
    ensures
        0 <= first_untagged(facts, tag) < facts.len(),
        !has_scope_tag(facts[first_untagged(facts, tag)], tag),
    decreases facts.len(),
{
    if has_scope_tag(facts[0], tag) {
        assert(!all_tagged(facts.skip(1), tag)) by {
            let k = choose|k: int|
                0 <= k < facts.len() && !has_scope_tag(#[trigger] facts[k], tag);
            assert(facts.skip(1)[k - 1] == facts[k]);
        }
        lemma_first_untagged_props(facts.skip(1), tag);
        assert(facts[first_untagged(facts, tag)] == facts.skip(1)[first_untagged(
            facts.skip(1),
            tag,
        )]);
    }
}

/// Law (scope enforcement): if any authority fact lacks the authority scope
/// tag, the check outcome is a single authority-phase scope violation,
/// regardless of every other fact, block, caveat or ambient input.
pub proof fn lemma_scope_enforcement(
    authority: BlockModel,
    blocks: Seq<BlockModel>,
    syms: Seq<Seq<char>>,
    af: Seq<PredicateModel>,
    ar: Seq<RuleModel>,
    j: int,
)
    requires
        0 <= j < authority.facts.len(),
        !has_scope_tag(authority.facts[j], auth_id(syms)),
    ensures
        verifier_check_model(authority, blocks, syms, af, ar).len() == 1,
        verifier_check_model(authority, blocks, syms, af, ar)[0] matches
            ErrorModel::ScopeViolation { phase, fact }
            && phase == Phase::Authority
            && !has_scope_tag(fact, auth_id(syms)),
{
    let auth = auth_id(syms);
    assert(!all_tagged(authority.facts, auth));
    lemma_first_untagged_props(authority.facts, auth);
}

/// The same failure, the reported chain position aside.
pub open spec fn same_outcome_at(e1: ErrorModel, e2: ErrorModel) -> bool {
    match (e1, e2) {
        (
            ErrorModel::CaveatFailure { block: _, caveat: c1, rule: r1 },
            ErrorModel::CaveatFailure { block: _, caveat: c2, rule: r2 },
        ) => c1 == c2 && r1 == r2,
        (
            ErrorModel::ScopeViolation { phase: _, fact: f1 },
            ErrorModel::ScopeViolation { phase: _, fact: f2 },
        ) => f1 == f2,
        _ => false,
    }
}

pub proof fn lemma_caveat_errors_position(
    closed: Seq<PredicateModel>,
    caveats: Seq<RuleModel>,
    i1: usize,
    i2: usize,
    j: int,
)
    ensures
        caveat_errors_model(closed, caveats, i1, j).len() == caveat_errors_model(
            closed,
            caveats,
            i2,
            j,
        ).len(),
        forall|t: int|
            0 <= t < caveat_errors_model(closed, caveats, i1, j).len() ==> same_outcome_at(
                #[trigger] caveat_errors_model(closed, caveats, i1, j)[t],
                caveat_errors_model(closed, caveats, i2, j)[t],
            ),
    decreases caveats.len() - j,
{
    if 0 <= j < caveats.len() {
        lemma_caveat_errors_position(closed, caveats, i1, i2, j + 1);
        let e1 = caveat_errors_model(closed, caveats, i1, j);
        let e2 = caveat_errors_model(closed, caveats, i2, j);
        let r1 = caveat_errors_model(closed, caveats, i1, j + 1);
        let r2 = caveat_errors_model(closed, caveats, i2, j + 1);
        if crate::datalog::query_rule_model(closed, caveats[j]).len() == 0 {
            assert forall|t: int| 0 <= t < e1.len() implies same_outcome_at(
                #[trigger] e1[t],
                e2[t],
            ) by {
                if t > 0 {
                    assert(e1[t] == r1[t - 1]);
                    assert(e2[t] == r2[t - 1]);
                }
            }
        }
    }
}

/// Law (isolation): in the chain phase every block is checked against the
/// same baseline world, so the aggregate outcome of two sibling blocks is
/// the concatenation of their isolated outcomes, and a block's outcome is
/// identical wherever it stands in the chain, the reported position aside.
/// Facts asserted by one block never affect a sibling's caveat outcomes:
/// the outcome is a function of the block and the shared baseline alone.
pub proof fn lemma_isolation(
    b1: BlockModel,
    b2: BlockModel,
    w: WorldModel,
    auth: u64,
    amb: u64,
    i1: usize,
    i2: usize,
)
    ensures
        chain_errors_model(seq![b1, b2], 0, w, auth, amb) == block_check_model(b1, 0, w, auth, amb)
            + block_check_model(b2, 1, w, auth, amb),
        block_check_model(b2, i1, w, auth, amb).len() == block_check_model(
            b2,
            i2,
            w,
            auth,
            amb,
        ).len(),
        forall|t: int|
            0 <= t < block_check_model(b2, i1, w, auth, amb).len() ==> same_outcome_at(
                #[trigger] block_check_model(b2, i1, w, auth, amb)[t],
                block_check_model(b2, i2, w, auth, amb)[t],
            ),
{
    let bs = seq![b1, b2];
    assert(bs[0] == b1);
    assert(bs[1] == b2);
    assert(chain_errors_model(bs, 2, w, auth, amb) =~= Seq::<ErrorModel>::empty());
    assert(chain_errors_model(bs, 1, w, auth, amb) =~= block_check_model(b2, 1, w, auth, amb));
    assert(chain_errors_model(bs, 0, w, auth, amb) =~= block_check_model(b1, 0, w, auth, amb)
        + block_check_model(b2, 1, w, auth, amb));
    if !crate::token::any_reserved(b2.facts, auth, amb) {
        let merged = insert_all_model(w.facts, b2.facts);
        let closed = closure_model(merged, w.rules, eval_fuel());
        lemma_caveat_errors_position(closed, b2.caveats, i1, i2, 0);
    }
}

pub proof fn lemma_chain_contains(
    blocks: Seq<BlockModel>,
    m: int,
    k: int,
    w: WorldModel,
    auth: u64,
    amb: u64,
    e: ErrorModel,
)
    requires
        0 <= m <= k < blocks.len(),
        block_check_model(blocks[k], k as usize, w, auth, amb).contains(e),
    ensures
        chain_errors_model(blocks, m, w, auth, amb).contains(e),
    decreases k - m,
{
    let part = block_check_model(blocks[m], m as usize, w, auth, amb);
    let rest = chain_errors_model(blocks, m + 1, w, auth, amb);
    if m == k {
        let t = choose|t: int| 0 <= t < part.len() && part[t] == e;
        assert((part + rest)[t] == e);
    } else {
        lemma_chain_contains(blocks, m + 1, k, w, auth, amb, e);
        let t = choose|t: int| 0 <= t < rest.len() && rest[t] == e;
        assert((part + rest)[part.len() + t] == e);
    }
}

/// Law (aggregation completeness): when the authority and ambient phases
/// pass, the chain phase never stops at the first failing block: a failure
/// of block `k1` and a failure of block `k2` both appear in the outcome.
pub proof fn lemma_aggregation_completeness(
    authority: BlockModel,
    blocks: Seq<BlockModel>,
    syms: Seq<Seq<char>>,
    af: Seq<PredicateModel>,
    ar: Seq<RuleModel>,
    k1: int,
    k2: int,
    e1: ErrorModel,
    e2: ErrorModel,
)
    requires
        all_tagged(authority.facts, auth_id(syms)),
        all_tagged(
            closure_model(
                insert_all_model(Seq::<PredicateModel>::empty(), authority.facts),
                authority.caveats,
                eval_fuel(),
            ),
            auth_id(syms),
        ),
        all_tagged(af, amb_id(syms)),
        0 <= k1 < blocks.len(),
        0 <= k2 < blocks.len(),
        block_check_model(
            blocks[k1],
            k1 as usize,
            baseline_world_model(authority, af, ar),
            auth_id(syms),
            amb_id(syms),
        ).contains(e1),
        block_check_model(
            blocks[k2],
            k2 as usize,
            baseline_world_model(authority, af, ar),
            auth_id(syms),
            amb_id(syms),
        ).contains(e2),
    ensures
        verifier_check_model(authority, blocks, syms, af, ar).contains(e1),
        verifier_check_model(authority, blocks, syms, af, ar).contains(e2),
{
    let w = baseline_world_model(authority, af, ar);
    lemma_chain_contains(blocks, 0, k1, w, auth_id(syms), amb_id(syms), e1);
    lemma_chain_contains(blocks, 0, k2, w, auth_id(syms), amb_id(syms), e2);
}

pub proof fn lemma_extend_all_contains(
    cands: Seq<Seq<(u64, ID)>>,
    lit: PredicateModel,
    facts: Seq<PredicateModel>,
    i: int,
    x: Seq<(u64, ID)>,
)
    requires
        0 <= i < cands.len(),
        extend_one_model(cands[i], lit, facts).contains(x),
    ensures
        extend_all_model(cands, lit, facts).contains(x),
    decreases cands.len(),
{
    let part = extend_one_model(cands[0], lit, facts);
    let rest = extend_all_model(cands.skip(1), lit, facts);
    if i == 0 {
        let t = choose|t: int| 0 <= t < part.len() && part[t] == x;
        assert((part + rest)[t] == x);
    } else {
        assert(cands.skip(1)[i - 1] == cands[i]);
        lemma_extend_all_contains(cands.skip(1), lit, facts, i - 1, x);
        let t = choose|t: int| 0 <= t < rest.len() && rest[t] == x;
        assert((part + rest)[part.len() + t] == x);
    }
}

pub proof fn lemma_extend_all_append(
    c1: Seq<Seq<(u64, ID)>>,
    c2: Seq<Seq<(u64, ID)>>,
    lit: PredicateModel,
    facts: Seq<PredicateModel>,
)
    ensures
        extend_all_model(c1 + c2, lit, facts) == extend_all_model(c1, lit, facts)
            + extend_all_model(c2, lit, facts),
    decreases c1.len(),
{
    if c1.len() == 0 {
        assert(c1 + c2 =~= c2);
        assert(extend_all_model(c1, lit, facts) + extend_all_model(c2, lit, facts)
            =~= extend_all_model(c2, lit, facts));
    } else {
        assert((c1 + c2)[0] == c1[0]);
        assert((c1 + c2).skip(1) =~= c1.skip(1) + c2);
        lemma_extend_all_append(c1.skip(1), c2, lit, facts);
        assert(extend_all_model(c1 + c2, lit, facts) =~= extend_all_model(c1, lit, facts)
            + extend_all_model(c2, lit, facts));
    }
}

pub proof fn lemma_query_body_append(
    c1: Seq<Seq<(u64, ID)>>,
    c2: Seq<Seq<(u64, ID)>>,
    body: Seq<PredicateModel>,
    facts: Seq<PredicateModel>,
)
    ensures
        query_body_model(c1 + c2, body, facts) == query_body_model(c1, body, facts)
            + query_body_model(c2, body, facts),
    decreases body.len(),
{
    if body.len() == 0 {
    } else {
        lemma_extend_all_append(c1, c2, body[0], facts);
        lemma_query_body_append(
            extend_all_model(c1, body[0], facts),
            extend_all_model(c2, body[0], facts),
            body.skip(1),
            facts,
        );
    }
}

pub proof fn lemma_query_body_split(
    cands: Seq<Seq<(u64, ID)>>,
    body: Seq<PredicateModel>,
    facts: Seq<PredicateModel>,
    x: Seq<(u64, ID)>,
) -> (i: int)
    requires
        query_body_model(cands, body, facts).contains(x),
    ensures
        0 <= i < cands.len(),
        query_body_model(seq![cands[i]], body, facts).contains(x),
    decreases cands.len(),
{
    if cands.len() == 0 {
        assert(query_body_model(cands, body, facts).len() == 0) by {
            lemma_query_body_len_zero(body, facts);
        }
        0
    } else {
        assert(cands =~= seq![cands[0]] + cands.skip(1));
        lemma_query_body_append(seq![cands[0]], cands.skip(1), body, facts);
        let part = query_body_model(seq![cands[0]], body, facts);
        let rest = query_body_model(cands.skip(1), body, facts);
        let t = choose|t: int| 0 <= t < (part + rest).len() && (part + rest)[t] == x;
        if t < part.len() {
            assert(part[t] == x);
            0
        } else {
            assert(rest[t - part.len()] == x);
            let i = lemma_query_body_split(cands.skip(1), body, facts, x);
            assert(cands.skip(1)[i] == cands[i + 1]);
            i + 1
        }
    }
}

pub proof fn lemma_query_body_len_zero(body: Seq<PredicateModel>, facts: Seq<PredicateModel>)
    ensures
        query_body_model(Seq::<Seq<(u64, ID)>>::empty(), body, facts).len() == 0,
    decreases body.len(),
{
    if body.len() > 0 {
        assert(extend_all_model(Seq::<Seq<(u64, ID)>>::empty(), body[0], facts)
            =~= Seq::<Seq<(u64, ID)>>::empty());
        lemma_query_body_len_zero(body.skip(1), facts);
    }
}

pub proof fn lemma_extend_one_member(
    b: Seq<(u64, ID)>,
    lit: PredicateModel,
    facts: Seq<PredicateModel>,
    f: PredicateModel,
    b2: Seq<(u64, ID)>,
)
    requires
        facts.contains(f),
        match_pred_model(b, lit, f) == Some(b2),
    ensures
        extend_one_model(b, lit, facts).contains(b2),
    decreases facts.len(),
{
    let rest = extend_one_model(b, lit, facts.skip(1));
    if facts[0] == f {
        assert(extend_one_model(b, lit, facts)[0] == b2);
    } else {
        let w = choose|w: int| 0 <= w < facts.len() && facts[w] == f;
        assert(facts.skip(1)[w - 1] == f);
        assert(facts.skip(1).contains(f));
        lemma_extend_one_member(b, lit, facts.skip(1), f, b2);
        let t = choose|t: int| 0 <= t < rest.len() && rest[t] == b2;
        match match_pred_model(b, lit, facts[0]) {
            Some(b0) => {
                assert(extend_one_model(b, lit, facts)[1 + t] == b2);
            },
            None => {
                assert(extend_one_model(b, lit, facts)[t] == b2);
            },
        }
    }
}

pub proof fn lemma_extend_one_source(
    b: Seq<(u64, ID)>,
    lit: PredicateModel,
    facts: Seq<PredicateModel>,
    x: Seq<(u64, ID)>,
) -> (f: PredicateModel)
    requires
        extend_one_model(b, lit, facts).contains(x),
    ensures
        facts.contains(f),
        match_pred_model(b, lit, f) == Some(x),
    decreases facts.len(),
{
    let rest = extend_one_model(b, lit, facts.skip(1));
    let whole = extend_one_model(b, lit, facts);
    let t = choose|t: int| 0 <= t < whole.len() && whole[t] == x;
    match match_pred_model(b, lit, facts[0]) {
        Some(b0) => {
            if t == 0 {
                assert(facts.contains(facts[0]));
                facts[0]
            } else {
                assert(rest[t - 1] == x);
                assert(rest.contains(x));
                let f = lemma_extend_one_source(b, lit, facts.skip(1), x);
                let w = choose|w: int| 0 <= w < facts.skip(1).len() && facts.skip(1)[w] == f;
                assert(facts[w + 1] == f);
                assert(facts.contains(f));
                f
            }
        },
        None => {
            assert(rest[t] == x);
            assert(rest.contains(x));
            let f = lemma_extend_one_source(b, lit, facts.skip(1), x);
            let w = choose|w: int| 0 <= w < facts.skip(1).len() && facts.skip(1)[w] == f;
            assert(facts[w + 1] == f);
            assert(facts.contains(f));
            f
        },
    }
}

pub proof fn lemma_query_body_mono(
    b: Seq<(u64, ID)>,
    body: Seq<PredicateModel>,
    facts1: Seq<PredicateModel>,
    facts2: Seq<PredicateModel>,
    cands2: Seq<Seq<(u64, ID)>>,
    x: Seq<(u64, ID)>,
)
    requires
        query_body_model(seq![b], body, facts1).contains(x),
        cands2.contains(b),
        forall|j: int| 0 <= j < facts1.len() ==> facts2.contains(#[trigger] facts1[j]),
    ensures
        query_body_model(cands2, body, facts2).contains(x),
    decreases body.len(),
{
    if body.len() == 0 {
        let t = choose|t: int| 0 <= t < seq![b].len() && seq![b][t] == x;
        assert(seq![b][0] == b);
        assert(x == b);
    } else {
        let lit = body[0];
        let e1 = extend_one_model(b, lit, facts1);
        assert(seq![b].skip(1) =~= Seq::<Seq<(u64, ID)>>::empty());
        assert(seq![b][0] == b);
        assert(extend_all_model(Seq::<Seq<(u64, ID)>>::empty(), lit, facts1)
            == Seq::<Seq<(u64, ID)>>::empty());
        assert(extend_all_model(seq![b], lit, facts1) == e1 + Seq::<Seq<(u64, ID)>>::empty());
        assert(e1 + Seq::<Seq<(u64, ID)>>::empty() =~= e1);
        let i = lemma_query_body_split(e1, body.skip(1), facts1, x);
        let b2 = e1[i];
        assert(e1.contains(b2));
        // b2 arose from matching some fact, which the larger base also holds
        let f = lemma_extend_one_source(b, lit, facts1, b2);
        let w = choose|w: int| 0 <= w < facts1.len() && facts1[w] == f;
        assert(facts2.contains(f));
        lemma_extend_one_member(b, lit, facts2, f, b2);
        let t = choose|t: int| 0 <= t < cands2.len() && cands2[t] == b;
        let cands3 = extend_all_model(cands2, lit, facts2);
        lemma_extend_all_contains(cands2, lit, facts2, t, b2);
        lemma_query_body_mono(b2, body.skip(1), facts1, facts2, cands3, x);
    }
}

/// Law (caveat monotonicity): caveats contain no negation, so enlarging the
/// fact base a caveat is queried against can only turn a failing caveat into
/// a passing one, never the reverse: a caveat satisfiable against `facts1`
/// is satisfiable against any base holding every fact of `facts1`.
pub proof fn lemma_caveat_monotonicity(
    facts1: Seq<PredicateModel>,
    facts2: Seq<PredicateModel>,
    r: RuleModel,
)
    requires
        query_rule_model(facts1, r).len() > 0,
        forall|j: int| 0 <= j < facts1.len() ==> facts2.contains(#[trigger] facts1[j]),
    ensures
        query_rule_model(facts2, r).len() > 0,
{
    let q = query_rule_model(facts1, r);
    let x = q[0];
    assert(q.contains(x));
    let empty_b = Seq::<(u64, ID)>::empty();
    assert(seq![empty_b].contains(empty_b)) by {
        assert(seq![empty_b][0] == empty_b);
    }
    lemma_query_body_mono(empty_b, r.body, facts1, facts2, seq![empty_b], x);
    let q2 = query_rule_model(facts2, r);
    assert(q2.contains(x));
}

/// Adding facts to the base, in particular one more satisfying ambient
/// fact, preserves every caveat that already passed.
pub proof fn lemma_caveat_monotonicity_append(
    facts: Seq<PredicateModel>,
    extra: Seq<PredicateModel>,
    r: RuleModel,
)
    requires
        query_rule_model(facts, r).len() > 0,
    ensures
        query_rule_model(facts + extra, r).len() > 0,
{
    assert forall|j: int| 0 <= j < facts.len() implies (facts + extra).contains(
        #[trigger] facts[j],
    ) by {
        assert((facts + extra)[j] == facts[j]);
    }
    lemma_caveat_monotonicity(facts, facts + extra, r);
}

pub proof fn lemma_push_derived_no_growth(
    acc: Seq<PredicateModel>,
    bs: Seq<Seq<(u64, ID)>>,
    head: PredicateModel,
    t: int,
)
    requires
        push_derived_model(acc, bs, head).len() == acc.len(),
        0 <= t < bs.len(),
        pred_is_ground(subst_pred_model(bs[t], head)),
    ensures
        acc.contains(subst_pred_model(bs[t], head)),
    decreases bs.len(),
{
    let d0 = subst_pred_model(bs[0], head);
    let acc2 = if pred_is_ground(d0) && !acc.contains(d0) {
        acc.push(d0)
    } else {
        acc
    };
    lemma_push_derived_extends(acc2, bs.skip(1), head);
    assert(acc2.len() == acc.len());
    assert(acc2 == acc);
    if t == 0 {
        assert(acc.contains(d0));
    } else {
        assert(bs.skip(1)[t - 1] == bs[t]);
        lemma_push_derived_no_growth(acc, bs.skip(1), head, t - 1);
    }
}

pub proof fn lemma_pass_rules_no_growth(
    base: Seq<PredicateModel>,
    rules: Seq<RuleModel>,
    acc: Seq<PredicateModel>,
    k: int,
    b: Seq<(u64, ID)>,
)
    requires
        pass_rules_model(base, rules, acc).len() == acc.len(),
        0 <= k < rules.len(),
        query_rule_model(base, rules[k]).contains(b),
        pred_is_ground(subst_pred_model(b, rules[k].head)),
    ensures
        acc.contains(subst_pred_model(b, rules[k].head)),
    decreases rules.len(),
{
    let bs0 = query_rule_model(base, rules[0]);
    let acc2 = push_derived_model(acc, bs0, rules[0].head);
    lemma_push_derived_extends(acc, bs0, rules[0].head);
    lemma_pass_rules_extends(base, rules.skip(1), acc2);
    assert(acc2.len() == acc.len());
    assert(acc2 =~= acc);
    if k == 0 {
        let t = choose|t: int| 0 <= t < bs0.len() && bs0[t] == b;
        lemma_push_derived_no_growth(acc, bs0, rules[0].head, t);
    } else {
        assert(rules.skip(1)[k - 1] == rules[k]);
        lemma_pass_rules_no_growth(base, rules.skip(1), acc, k - 1, b);
    }
}

pub proof fn lemma_push_derived_source(
    acc: Seq<PredicateModel>,
    bs: Seq<Seq<(u64, ID)>>,
    head: PredicateModel,
    x: PredicateModel,
) -> (t: int)
    requires
        push_derived_model(acc, bs, head).contains(x),
        !acc.contains(x),
    ensures
        0 <= t < bs.len(),
        x == subst_pred_model(bs[t], head),
        pred_is_ground(x),
    decreases bs.len(),
{
    if bs.len() == 0 {
        assert(false);
        0
    } else {
        let d0 = subst_pred_model(bs[0], head);
        let acc2 = if pred_is_ground(d0) && !acc.contains(d0) {
            acc.push(d0)
        } else {
            acc
        };
        if acc2.contains(x) {
            // x is the one fact this step added
            let w = choose|w: int| 0 <= w < acc2.len() && acc2[w] == x;
            assert(w == acc.len());
            0
        } else {
            let t = lemma_push_derived_source(acc2, bs.skip(1), head, x);
            assert(bs.skip(1)[t] == bs[t + 1]);
            t + 1
        }
    }
}

pub proof fn lemma_pass_rules_source(
    base: Seq<PredicateModel>,
    rules: Seq<RuleModel>,
    acc: Seq<PredicateModel>,
    x: PredicateModel,
) -> (k: int)
    requires
        pass_rules_model(base, rules, acc).contains(x),
        !acc.contains(x),
    ensures
        0 <= k < rules.len(),
        exists|b: Seq<(u64, ID)>|
            query_rule_model(base, rules[k]).contains(b) && x == subst_pred_model(
                b,
                #[trigger] rules[k].head,
            ) && pred_is_ground(x),
    decreases rules.len(),
{
    if rules.len() == 0 {
        assert(false);
        0
    } else {
        let bs0 = query_rule_model(base, rules[0]);
        let acc2 = push_derived_model(acc, bs0, rules[0].head);
        if acc2.contains(x) {
            let t = lemma_push_derived_source(acc, bs0, rules[0].head, x);
            assert(bs0.contains(bs0[t]));
            assert(query_rule_model(base, rules[0]).contains(bs0[t]) && x == subst_pred_model(
                bs0[t],
                rules[0].head,
            ) && pred_is_ground(x));
            0
        } else {
            let k = lemma_pass_rules_source(base, rules.skip(1), acc2, x);
            assert(rules.skip(1)[k] == rules[k + 1]);
            k + 1
        }
    }
}

/// Every fact of the closure of `a` lies in any fact base that contains
/// `a`'s facts and is itself closed under one pass of the rules.
pub proof fn lemma_closure_in_closed(
    a: Seq<PredicateModel>,
    rules: Seq<RuleModel>,
    fuel: nat,
    s: Seq<PredicateModel>,
)
    requires
        forall|j: int| 0 <= j < a.len() ==> s.contains(#[trigger] a[j]),
        one_pass_model(s, rules).len() == s.len(),
    ensures
        forall|j: int|
            0 <= j < closure_model(a, rules, fuel).len() ==> s.contains(
                #[trigger] closure_model(a, rules, fuel)[j],
            ),
    decreases fuel,
{
    let c = closure_model(a, rules, fuel);
    if fuel == 0 {
        assert forall|j: int| 0 <= j < c.len() implies s.contains(#[trigger] c[j]) by {
            assert(c[j] == a[j]);
        }
    }
    if fuel > 0 {
        let f2 = one_pass_model(a, rules);
        lemma_one_pass_extends(a, rules);
        if f2.len() == a.len() {
            assert(c == a);
            assert forall|j: int| 0 <= j < c.len() implies s.contains(#[trigger] c[j]) by {
                assert(c[j] == a[j]);
            }
        }
        if f2.len() != a.len() {
            assert forall|j: int| 0 <= j < f2.len() implies s.contains(#[trigger] f2[j]) by {
                let x = f2[j];
                if j < a.len() {
                    assert(x == a[j]);
                } else if a.contains(x) {
                    let w = choose|w: int| 0 <= w < a.len() && a[w] == x;
                } else {
                    assert(f2.contains(x));
                    let k = lemma_pass_rules_source(a, rules, a, x);
                    let b = choose|b: Seq<(u64, ID)>|
                        query_rule_model(a, rules[k]).contains(b) && x == subst_pred_model(
                            b,
                            #[trigger] rules[k].head,
                        ) && pred_is_ground(x);
                    let q = query_rule_model(a, rules[k]);
                    let empty_b = Seq::<(u64, ID)>::empty();
                    assert(seq![empty_b].contains(empty_b)) by {
                        assert(seq![empty_b][0] == empty_b);
                    }
                    lemma_query_body_mono(empty_b, rules[k].body, a, s, seq![empty_b], b);
                    lemma_pass_rules_no_growth(s, rules, s, k, b);
                }
            }
            lemma_closure_in_closed(f2, rules, (fuel - 1) as nat, s);
            let c2 = closure_model(f2, rules, (fuel - 1) as nat);
            assert(c == c2);
            assert forall|j: int| 0 <= j < c.len() implies s.contains(#[trigger] c[j]) by {
                assert(c[j] == c2[j]);
            }
        }
    }
}

/// Enlarging the fact base can only enlarge its closure, provided the
/// enlarged evaluation reaches its fixed point.
pub proof fn lemma_closure_elements_mono(
    a: Seq<PredicateModel>,
    b: Seq<PredicateModel>,
    rules: Seq<RuleModel>,
    fuel: nat,
)
    requires
        forall|j: int| 0 <= j < a.len() ==> b.contains(#[trigger] a[j]),
        one_pass_model(closure_model(b, rules, fuel), rules).len() == closure_model(
            b,
            rules,
            fuel,
        ).len(),
    ensures
        forall|j: int|
            0 <= j < closure_model(a, rules, fuel).len() ==> closure_model(
                b,
                rules,
                fuel,
            ).contains(#[trigger] closure_model(a, rules, fuel)[j]),
{
    let cb = closure_model(b, rules, fuel);
    lemma_closure_extends(b, rules, fuel);
    assert forall|j: int| 0 <= j < a.len() implies cb.contains(#[trigger] a[j]) by {
        let w = choose|w: int| 0 <= w < b.len() && b[w] == a[j];
        assert(cb[w] == a[j]);
    }
    lemma_closure_in_closed(a, rules, fuel, cb);
}

pub proof fn lemma_insert_all_source(
    fs: Seq<PredicateModel>,
    add: Seq<PredicateModel>,
    x: PredicateModel,
)
    requires
        insert_all_model(fs, add).contains(x),
    ensures
        fs.contains(x) || add.contains(x),
    decreases add.len(),
{
    if add.len() > 0 {
        let fs2 = insert_fact_model(fs, add[0]);
        lemma_insert_all_source(fs2, add.skip(1), x);
        if fs2.contains(x) && !fs.contains(x) {
            let w = choose|w: int| 0 <= w < fs2.len() && fs2[w] == x;
            assert(x == add[0]);
            assert(add.contains(add[0]));
        } else if !fs2.contains(x) {
            let w = choose|w: int| 0 <= w < add.skip(1).len() && add.skip(1)[w] == x;
            assert(add[w + 1] == x);
        }
    }
}

pub proof fn lemma_insert_all_keeps(
    fs: Seq<PredicateModel>,
    add: Seq<PredicateModel>,
    x: PredicateModel,
)
    requires
        fs.contains(x),
    ensures
        insert_all_model(fs, add).contains(x),
    decreases add.len(),
{
    if add.len() > 0 {
        let fs2 = insert_fact_model(fs, add[0]);
        let w = choose|w: int| 0 <= w < fs.len() && fs[w] == x;
        assert(fs2[w] == x);
        assert(fs2.contains(x));
        lemma_insert_all_keeps(fs2, add.skip(1), x);
    }
}

pub proof fn lemma_insert_all_adds(
    fs: Seq<PredicateModel>,
    add: Seq<PredicateModel>,
    t: int,
)
    requires
        0 <= t < add.len(),
    ensures
        insert_all_model(fs, add).contains(add[t]),
    decreases add.len(),
{
    let fs2 = insert_fact_model(fs, add[0]);
    if t == 0 {
        if fs.contains(add[0]) {
            lemma_insert_all_keeps(fs2, add.skip(1), add[0]);
        } else {
            assert(fs2[fs.len() as int] == add[0]);
            assert(fs2.contains(add[0]));
            lemma_insert_all_keeps(fs2, add.skip(1), add[0]);
        }
    } else {
        assert(add.skip(1)[t - 1] == add[t]);
        lemma_insert_all_adds(fs2, add.skip(1), t - 1);
    }
}

/// Law (caveat monotonicity, through the closure): holding the block, the
/// rules and everything else fixed, enlarging the baseline fact base -- in
/// particular by one more satisfying ambient fact -- can only turn a failing
/// caveat into a passing one, never the reverse, provided the enlarged
/// evaluation reaches its fixed point.
pub proof fn lemma_block_caveat_monotonicity(
    b: BlockModel,
    w1: WorldModel,
    w2: WorldModel,
    j: int,
)
    requires
        w1.rules == w2.rules,
        forall|t: int| 0 <= t < w1.facts.len() ==> w2.facts.contains(#[trigger] w1.facts[t]),
        0 <= j < b.caveats.len(),
        one_pass_model(
            closure_model(insert_all_model(w2.facts, b.facts), w2.rules, eval_fuel()),
            w2.rules,
        ).len() == closure_model(
            insert_all_model(w2.facts, b.facts),
            w2.rules,
            eval_fuel(),
        ).len(),
        query_rule_model(
            closure_model(insert_all_model(w1.facts, b.facts), w1.rules, eval_fuel()),
            b.caveats[j],
        ).len() > 0,
    ensures
        query_rule_model(
            closure_model(insert_all_model(w2.facts, b.facts), w2.rules, eval_fuel()),
            b.caveats[j],
        ).len() > 0,
{
    let merged1 = insert_all_model(w1.facts, b.facts);
    let merged2 = insert_all_model(w2.facts, b.facts);
    assert forall|t: int| 0 <= t < merged1.len() implies merged2.contains(
        #[trigger] merged1[t],
    ) by {
        let x = merged1[t];
        assert(merged1.contains(x));
        lemma_insert_all_source(w1.facts, b.facts, x);
        if w1.facts.contains(x) {
            lemma_insert_all_keeps(w2.facts, b.facts, x);
        } else {
            let w = choose|w: int| 0 <= w < b.facts.len() && b.facts[w] == x;
            lemma_insert_all_adds(w2.facts, b.facts, w);
        }
    }
    lemma_closure_elements_mono(merged1, merged2, w2.rules, eval_fuel());
    let closed1 = closure_model(merged1, w1.rules, eval_fuel());
    let closed2 = closure_model(merged2, w2.rules, eval_fuel());
    lemma_caveat_monotonicity(closed1, closed2, b.caveats[j]);
}

} // verus!
