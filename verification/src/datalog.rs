//! Fact/rule model and its evaluation engine.
//!
//! Facts are ground predicates over interned symbols and literals; rules
//! derive new facts by unifying their body patterns against the fact base.
//! The engine offers the two operations the check protocol relies on:
//! `run`, which takes the fact base to closure under the current rules, and
//! `query_rule`, which returns every variable binding satisfying a rule's
//! body without mutating the base.

use vstd::prelude::*;

verus! {

/// A term of a fact or rule pattern: an interned symbol, a rule-local
/// variable, or a literal value. Ground facts never hold a `Variable`.
#[derive(Clone, Copy, PartialEq, Eq, Structural, Debug)]
pub enum ID {
    Symbol(u64),
    Variable(u64),
    Integer(i64),
    Date(u64),
}

/// Shorthand for a rule-local variable term.
pub fn var(v: u64) -> (r: ID)
    ensures
        r == ID::Variable(v),
{
    ID::Variable(v)
}

/// A predicate name applied to an ordered list of terms. By convention,
/// argument 0 of a fact is its trust-scope tag.
#[derive(Clone, Debug)]
pub struct Predicate {
    pub name: u64,
    pub ids: Vec<ID>,
}

/// Mathematical model of a predicate.
pub struct PredicateModel {
    pub name: u64,
    pub ids: Seq<ID>,
}

impl View for Predicate {
    type V = PredicateModel;

    open spec fn view(&self) -> PredicateModel {
        PredicateModel { name: self.name, ids: self.ids@ }
    }
}

/// A ground statement asserted in some trust scope.
#[derive(Clone, Debug)]
pub struct Fact(pub Predicate);

impl View for Fact {
    type V = PredicateModel;

    open spec fn view(&self) -> PredicateModel {
        self.0@
    }
}

/// A head pattern derivable whenever every body pattern jointly unifies
/// against the fact base. A caveat is a rule that is only ever queried.
#[derive(Clone, Debug)]
pub struct Rule {
    pub head: Predicate,
    pub body: Vec<Predicate>,
}

/// Mathematical model of a rule.
pub struct RuleModel {
    pub head: PredicateModel,
    pub body: Seq<PredicateModel>,
}

impl View for Rule {
    type V = RuleModel;

    open spec fn view(&self) -> RuleModel {
        RuleModel { head: self.head@, body: self.body@.map_values(|p: Predicate| p@) }
    }
}

/// Builds a predicate.
pub fn pred(name: u64, ids: Vec<ID>) -> (r: Predicate)
    ensures
        r@ == (PredicateModel { name, ids: ids@ }),
{
    Predicate { name, ids }
}

/// Builds a ground fact.
pub fn fact(name: u64, ids: Vec<ID>) -> (r: Fact)
    ensures
        r@ == (PredicateModel { name, ids: ids@ }),
{
    Fact(Predicate { name, ids })
}

/// Builds a rule from its head and body patterns.
pub fn rule(head_name: u64, head_ids: Vec<ID>, body: Vec<Predicate>) -> (r: Rule)
    ensures
        r@.head == (PredicateModel { name: head_name, ids: head_ids@ }),
        r@.body == body@.map_values(|p: Predicate| p@),
{
    Rule { head: Predicate { name: head_name, ids: head_ids }, body }
}

/// A substitution from variables to ground terms, built up during
/// unification; entries are keyed by variable and never rebound.
pub type Binding = Vec<(u64, ID)>;

/// The models of a list of bindings.
pub open spec fn binding_views(s: Seq<Binding>) -> Seq<Seq<(u64, ID)>> {
    s.map_values(|b: Binding| b@)
}

/// The term a binding assigns to variable `v`, if any.
pub open spec fn binding_value(b: Seq<(u64, ID)>, v: u64) -> Option<ID>
    decreases b.len(),
{
    if b.len() == 0 {
        None
    } else if b[0].0 == v {
        Some(b[0].1)
    } else {
        binding_value(b.skip(1), v)
    }
}

pub proof fn lemma_binding_value_found(b: Seq<(u64, ID)>, v: u64, i: int)
    requires
        0 <= i < b.len(),
        b[i].0 == v,
        forall|j: int| 0 <= j < i ==> b[j].0 != v,
    ensures
        binding_value(b, v) == Some(b[i].1),
    decreases b.len(),
{
    if i > 0 {
        assert(b.skip(1)[i - 1] == b[i]);
        assert forall|j: int| 0 <= j < i - 1 implies b.skip(1)[j].0 != v by {
            assert(b.skip(1)[j] == b[j + 1]);
        }
        lemma_binding_value_found(b.skip(1), v, i - 1);
    }
}

pub proof fn lemma_binding_value_none(b: Seq<(u64, ID)>, v: u64)
    requires
        forall|j: int| 0 <= j < b.len() ==> b[j].0 != v,
    ensures
        binding_value(b, v) is None,
    decreases b.len(),
{
    if b.len() > 0 {
        assert forall|j: int| 0 <= j < b.skip(1).len() implies b.skip(1)[j].0 != v by {
            assert(b.skip(1)[j] == b[j + 1]);
        }
        lemma_binding_value_none(b.skip(1), v);
    }
}

/// Looks up the term bound to `v`.
pub fn binding_get(b: &Binding, v: u64) -> (r: Option<ID>)
    ensures
        r == binding_value(b@, v),
{
    let n: usize = b.len();
    let mut i: usize = 0;
    while i < n
        invariant
            n == b@.len(),
            0 <= i <= n,
            forall|j: int| 0 <= j < i ==> b@[j].0 != v,
        decreases n - i,
    {
        let (key, value) = b[i];
        if key == v {
            proof {
                lemma_binding_value_found(b@, v, i as int);
            }
            return Some(value);
        }
        i += 1;
    }
    proof {
        lemma_binding_value_none(b@, v);
    }
    None
}

/// Extends `b` so that pattern term `p` matches ground term `v`, if possible.
pub open spec fn match_id_model(b: Seq<(u64, ID)>, p: ID, v: ID) -> Option<Seq<(u64, ID)>> {
    match p {
        ID::Variable(x) => match binding_value(b, x) {
            Some(w) => if w == v {
                Some(b)
            } else {
                None
            },
            None => Some(b.push((x, v))),
        },
        _ => if p == v {
            Some(b)
        } else {
            None
        },
    }
}

/// Extends `b` so that every pattern term of `ps` matches the corresponding
/// term of `vs`, if possible.
pub open spec fn match_ids_model(b: Seq<(u64, ID)>, ps: Seq<ID>, vs: Seq<ID>) -> Option<
    Seq<(u64, ID)>,
>
    decreases ps.len(),
{
    if ps.len() == 0 {
        Some(b)
    } else {
        match match_id_model(b, ps[0], vs[0]) {
            Some(b2) => match_ids_model(b2, ps.skip(1), vs.skip(1)),
            None => None,
        }
    }
}

/// Extends `b` so that pattern `lit` matches ground fact `f`, if possible.
pub open spec fn match_pred_model(
    b: Seq<(u64, ID)>,
    lit: PredicateModel,
    f: PredicateModel,
) -> Option<Seq<(u64, ID)>> {
    if lit.name == f.name && lit.ids.len() == f.ids.len() {
        match_ids_model(b, lit.ids, f.ids)
    } else {
        None
    }
}

fn copy_binding(b: &Binding) -> (r: Binding)
    ensures
        r@ == b@,
{
    let n: usize = b.len();
    let mut r: Binding = Vec::new();
    let mut i: usize = 0;
    while i < n
        invariant
            n == b@.len(),
            0 <= i <= n,
            r@ == b@.take(i as int),
        decreases n - i,
    {
        r.push(b[i]);
        proof {
            assert(r@ =~= b@.take(i + 1 as int));
        }
        i += 1;
    }
    proof {
        assert(b@.take(n as int) =~= b@);
    }
    r
}

/// Unifies pattern `lit` against ground fact `f` under the partial
/// substitution `b`, returning the extended substitution on success.
pub fn match_pred(b: &Binding, lit: &Predicate, f: &Fact) -> (r: Option<Binding>)
    ensures
        match (r, match_pred_model(b@, lit@, f@)) {
            (Some(b2), Some(m)) => b2@ == m,
            (None, None) => true,
            _ => false,
        },
{
    if lit.name != f.0.name || lit.ids.len() != f.0.ids.len() {
        return None;
    }
    let n: usize = lit.ids.len();
    let mut cur: Binding = copy_binding(b);
    proof {
        assert(lit@.ids.skip(0) =~= lit@.ids);
        assert(f@.ids.skip(0) =~= f@.ids);
    }
    let mut i: usize = 0;
    while i < n
        invariant
            n == lit@.ids.len(),
            n == f@.ids.len(),
            0 <= i <= n,
            match_ids_model(b@, lit@.ids, f@.ids) == match_ids_model(
                cur@,
                lit@.ids.skip(i as int),
                f@.ids.skip(i as int),
            ),
        decreases n - i,
    {
        let p: ID = lit.ids[i];
        let v: ID = f.0.ids[i];
        proof {
            assert(lit@.ids.skip(i as int)[0] == p);
            assert(f@.ids.skip(i as int)[0] == v);
            assert(lit@.ids.skip(i as int).skip(1) =~= lit@.ids.skip(i + 1));
            assert(f@.ids.skip(i as int).skip(1) =~= f@.ids.skip(i + 1));
        }
        match p {
            ID::Variable(x) => {
                match binding_get(&cur, x) {
                    Some(w) => {
                        if !(w == v) {
                            return None;
                        }
                    },
                    None => {
                        cur.push((x, v));
                    },
                }
            },
            _ => {
                if !(p == v) {
                    return None;
                }
            },
        }
        i += 1;
    }
    proof {
        assert(lit@.ids.skip(n as int) =~= Seq::<ID>::empty());
        assert(f@.ids.skip(n as int) =~= Seq::<ID>::empty());
    }
    Some(cur)
}

/// The term `t` becomes under substitution `b`; unbound variables stay.
pub open spec fn subst_id_model(b: Seq<(u64, ID)>, t: ID) -> ID {
    match t {
        ID::Variable(x) => match binding_value(b, x) {
            Some(w) => w,
            None => t,
        },
        _ => t,
    }
}

/// The pattern `p` instantiated under substitution `b`.
pub open spec fn subst_pred_model(b: Seq<(u64, ID)>, p: PredicateModel) -> PredicateModel {
    PredicateModel { name: p.name, ids: p.ids.map_values(|t: ID| subst_id_model(b, t)) }
}

pub open spec fn id_is_ground(t: ID) -> bool {
    !(t is Variable)
}

/// A predicate free of variables, fit to be asserted as a fact.
pub open spec fn pred_is_ground(p: PredicateModel) -> bool {
    forall|j: int| 0 <= j < p.ids.len() ==> id_is_ground(#[trigger] p.ids[j])
}

fn subst_id(b: &Binding, t: ID) -> (r: ID)
    ensures
        r == subst_id_model(b@, t),
{
    match t {
        ID::Variable(x) => match binding_get(b, x) {
            Some(w) => w,
            None => t,
        },
        _ => t,
    }
}

/// Instantiates pattern `p` under substitution `b`.
pub fn subst_pred(b: &Binding, p: &Predicate) -> (r: Predicate)
    ensures
        r@ == subst_pred_model(b@, p@),
{
    let n: usize = p.ids.len();
    let mut ids: Vec<ID> = Vec::new();
    let mut i: usize = 0;
    while i < n
        invariant
            n == p@.ids.len(),
            0 <= i <= n,
            ids@.len() == i,
            forall|j: int| 0 <= j < i ==> ids@[j] == subst_id_model(b@, p@.ids[j]),
        decreases n - i,
    {
        let t = subst_id(b, p.ids[i]);
        ids.push(t);
        i += 1;
    }
    let r = Predicate { name: p.name, ids };
    proof {
        assert(r@.ids =~= p@.ids.map_values(|t: ID| subst_id_model(b@, t)));
    }
    r
}

/// Tests whether `p` holds no variable.
pub fn pred_ground(p: &Predicate) -> (r: bool)
    ensures
        r == pred_is_ground(p@),
{
    let n: usize = p.ids.len();
    let mut i: usize = 0;
    while i < n
        invariant
            n == p@.ids.len(),
            0 <= i <= n,
            forall|j: int| 0 <= j < i ==> id_is_ground(#[trigger] p@.ids[j]),
        decreases n - i,
    {
        match p.ids[i] {
            ID::Variable(_) => {
                return false;
            },
            _ => {},
        }
        i += 1;
    }
    true
}

/// Structural equality of predicates.
pub fn pred_eq(a: &Predicate, b: &Predicate) -> (r: bool)
    ensures
        r == (a@ == b@),
{
    if a.name != b.name || a.ids.len() != b.ids.len() {
        return false;
    }
    let n: usize = a.ids.len();
    let mut i: usize = 0;
    while i < n
        invariant
            n == a@.ids.len(),
            n == b@.ids.len(),
            a@.name == b@.name,
            0 <= i <= n,
            forall|j: int| 0 <= j < i ==> a@.ids[j] == b@.ids[j],
        decreases n - i,
    {
        let x = a.ids[i];
        let y = b.ids[i];
        if !(x == y) {
            return false;
        }
        i += 1;
    }
    proof {
        assert(a@.ids =~= b@.ids);
    }
    true
}

/// The models of a list of facts.
pub open spec fn fact_views(s: Seq<Fact>) -> Seq<PredicateModel> {
    s.map_values(|x: Fact| x@)
}

/// The models of a list of rules.
pub open spec fn rule_views(s: Seq<Rule>) -> Seq<RuleModel> {
    s.map_values(|x: Rule| x@)
}

/// Membership test in a fact list, by value.
pub fn facts_contain(fs: &Vec<Fact>, f: &Fact) -> (r: bool)
    ensures
        r == fact_views(fs@).contains(f@),
{
    let n: usize = fs.len();
    let mut i: usize = 0;
    while i < n
        invariant
            n == fs@.len(),
            0 <= i <= n,
            forall|j: int| 0 <= j < i ==> fact_views(fs@)[j] != f@,
        decreases n - i,
    {
        if pred_eq(&fs[i].0, &f.0) {
            proof {
                assert(fact_views(fs@)[i as int] == f@);
            }
            return true;
        }
        i += 1;
    }
    proof {
        assert(!fact_views(fs@).contains(f@));
    }
    false
}

fn copy_ids(v: &Vec<ID>) -> (r: Vec<ID>)
    ensures
        r@ == v@,
{
    let n: usize = v.len();
    let mut r: Vec<ID> = Vec::new();
    let mut i: usize = 0;
    while i < n
        invariant
            n == v@.len(),
            0 <= i <= n,
            r@ == v@.take(i as int),
        decreases n - i,
    {
        r.push(v[i]);
        proof {
            assert(r@ =~= v@.take(i as int + 1));
        }
        i += 1;
    }
    proof {
        assert(v@.take(n as int) =~= v@);
    }
    r
}

/// An independent copy of a predicate.
pub fn copy_pred(p: &Predicate) -> (r: Predicate)
    ensures
        r@ == p@,
{
    Predicate { name: p.name, ids: copy_ids(&p.ids) }
}

/// An independent copy of a fact.
pub fn copy_fact(f: &Fact) -> (r: Fact)
    ensures
        r@ == f@,
{
    Fact(copy_pred(&f.0))
}

/// An independent copy of a fact list.
pub fn copy_facts(fs: &Vec<Fact>) -> (r: Vec<Fact>)
    ensures
        fact_views(r@) == fact_views(fs@),
{
    let n: usize = fs.len();
    let mut r: Vec<Fact> = Vec::new();
    let mut i: usize = 0;
    while i < n
        invariant
            n == fs@.len(),
            0 <= i <= n,
            r@.len() == i,
            forall|j: int| 0 <= j < i ==> fact_views(r@)[j] == fact_views(fs@)[j],
        decreases n - i,
    {
        let f = copy_fact(&fs[i]);
        r.push(f);
        i += 1;
    }
    proof {
        assert(fact_views(r@) =~= fact_views(fs@));
    }
    r
}

/// An independent copy of a rule.
pub fn copy_rule(x: &Rule) -> (r: Rule)
    ensures
        r@ == x@,
{
    let n: usize = x.body.len();
    let mut body: Vec<Predicate> = Vec::new();
    let mut i: usize = 0;
    while i < n
        invariant
            n == x.body@.len(),
            0 <= i <= n,
            body@.len() == i,
            forall|j: int| 0 <= j < i ==> #[trigger] body@[j]@ == x.body@[j]@,
        decreases n - i,
    {
        let p = copy_pred(&x.body[i]);
        body.push(p);
        i += 1;
    }
    let r = Rule { head: copy_pred(&x.head), body };
    proof {
        assert(r@.body =~= x@.body);
    }
    r
}

/// Every extension of `b` matching `lit` against some fact of `facts`, in
/// fact order.
pub open spec fn extend_one_model(
    b: Seq<(u64, ID)>,
    lit: PredicateModel,
    facts: Seq<PredicateModel>,
) -> Seq<Seq<(u64, ID)>>
    decreases facts.len(),
{
    if facts.len() == 0 {
        Seq::empty()
    } else {
        let rest = extend_one_model(b, lit, facts.skip(1));
        match match_pred_model(b, lit, facts[0]) {
            Some(b2) => seq![b2] + rest,
            None => rest,
        }
    }
}

/// `extend_one_model` applied to every candidate, in candidate order.
pub open spec fn extend_all_model(
    cands: Seq<Seq<(u64, ID)>>,
    lit: PredicateModel,
    facts: Seq<PredicateModel>,
) -> Seq<Seq<(u64, ID)>>
    decreases cands.len(),
{
    if cands.len() == 0 {
        Seq::empty()
    } else {
        extend_one_model(cands[0], lit, facts) + extend_all_model(cands.skip(1), lit, facts)
    }
}

/// The candidates surviving every body pattern in turn.
pub open spec fn query_body_model(
    cands: Seq<Seq<(u64, ID)>>,
    body: Seq<PredicateModel>,
    facts: Seq<PredicateModel>,
) -> Seq<Seq<(u64, ID)>>
    decreases body.len(),
{
    if body.len() == 0 {
        cands
    } else {
        query_body_model(extend_all_model(cands, body[0], facts), body.skip(1), facts)
    }
}

/// Every substitution under which all body patterns of `r` jointly match
/// facts of `facts`. A caveat passes iff this is non-empty.
pub open spec fn query_rule_model(facts: Seq<PredicateModel>, r: RuleModel) -> Seq<
    Seq<(u64, ID)>,
> {
    query_body_model(seq![Seq::<(u64, ID)>::empty()], r.body, facts)
}

fn extend_one(b: &Binding, lit: &Predicate, facts: &Vec<Fact>) -> (res: Vec<Binding>)
    ensures
        binding_views(res@) == extend_one_model(b@, lit@, fact_views(facts@)),
{
    let ghost fv = fact_views(facts@);
    let n: usize = facts.len();
    let mut res: Vec<Binding> = Vec::new();
    proof {
        assert(fv.skip(0) =~= fv);
        assert(binding_views(res@) + extend_one_model(b@, lit@, fv) =~= extend_one_model(
            b@,
            lit@,
            fv,
        ));
    }
    let mut i: usize = 0;
    while i < n
        invariant
            n == facts@.len(),
            fv == fact_views(facts@),
            0 <= i <= n,
            binding_views(res@) + extend_one_model(b@, lit@, fv.skip(i as int))
                == extend_one_model(b@, lit@, fv),
        decreases n - i,
    {
        let ghost prev = binding_views(res@);
        proof {
            assert(fv.skip(i as int)[0] == fv[i as int]);
            assert(fv.skip(i as int).skip(1) =~= fv.skip(i as int + 1));
        }
        match match_pred(b, lit, &facts[i]) {
            Some(b2) => {
                proof {
                    let step = extend_one_model(b@, lit@, fv.skip(i as int));
                    assert(step == seq![b2@] + extend_one_model(b@, lit@, fv.skip(i as int + 1)));
                }
                res.push(b2);
                proof {
                    assert(binding_views(res@) =~= prev.push(res@.last()@));
                    assert(prev + (seq![res@.last()@] + extend_one_model(
                        b@,
                        lit@,
                        fv.skip(i as int + 1),
                    )) =~= binding_views(res@) + extend_one_model(b@, lit@, fv.skip(i as int + 1)));
                }
            },
            None => {},
        }
        i += 1;
    }
    proof {
        assert(fv.skip(n as int) =~= Seq::<PredicateModel>::empty());
        assert(binding_views(res@) + Seq::<Seq<(u64, ID)>>::empty() =~= binding_views(res@));
    }
    res
}

fn extend_all(cands: &Vec<Binding>, lit: &Predicate, facts: &Vec<Fact>) -> (res: Vec<Binding>)
    ensures
        binding_views(res@) == extend_all_model(binding_views(cands@), lit@, fact_views(facts@)),
{
    let ghost cv = binding_views(cands@);
    let ghost fv = fact_views(facts@);
    let n: usize = cands.len();
    let mut res: Vec<Binding> = Vec::new();
    proof {
        assert(cv.skip(0) =~= cv);
        assert(binding_views(res@) + extend_all_model(cv, lit@, fv) =~= extend_all_model(
            cv,
            lit@,
            fv,
        ));
    }
    let mut i: usize = 0;
    while i < n
        invariant
            n == cands@.len(),
            cv == binding_views(cands@),
            fv == fact_views(facts@),
            0 <= i <= n,
            binding_views(res@) + extend_all_model(cv.skip(i as int), lit@, fv)
                == extend_all_model(cv, lit@, fv),
        decreases n - i,
    {
        let ghost prev = binding_views(res@);
        proof {
            assert(cv.skip(i as int)[0] == cv[i as int]);
            assert(cv.skip(i as int).skip(1) =~= cv.skip(i as int + 1));
            assert(cands@[i as int]@ == cv[i as int]);
        }
        let mut part = extend_one(&cands[i], lit, facts);
        let ghost pv = binding_views(part@);
        let m: usize = part.len();
        let mut k: usize = 0;
        while k < m
            invariant
                m == part@.len(),
                pv == binding_views(part@),
                0 <= k <= m,
                binding_views(res@) == prev + pv.take(k as int),
            decreases m - k,
        {
            let one = copy_binding(&part[k]);
            let ghost before = binding_views(res@);
            proof {
                assert(one@ == pv[k as int]);
            }
            res.push(one);
            proof {
                assert(binding_views(res@) =~= before.push(pv[k as int]));
                assert(before.push(pv[k as int]) =~= prev + pv.take(k as int + 1));
            }
            k += 1;
        }
        proof {
            assert(pv.take(m as int) =~= pv);
            assert((prev + pv) + extend_all_model(cv.skip(i as int + 1), lit@, fv) =~= prev + (pv
                + extend_all_model(cv.skip(i as int + 1), lit@, fv)));
        }
        i += 1;
    }
    proof {
        assert(cv.skip(n as int) =~= Seq::<Seq<(u64, ID)>>::empty());
        assert(binding_views(res@) + Seq::<Seq<(u64, ID)>>::empty() =~= binding_views(res@));
    }
    res
}

/// Every substitution satisfying the body of `r` against `facts`.
pub fn query_facts(facts: &Vec<Fact>, r: &Rule) -> (res: Vec<Binding>)
    ensures
        binding_views(res@) == query_rule_model(fact_views(facts@), r@),
{
    let ghost fv = fact_views(facts@);
    let ghost bv = r@.body;
    let mut cands: Vec<Binding> = Vec::new();
    let empty: Binding = Vec::new();
    cands.push(empty);
    proof {
        assert(binding_views(cands@) =~= seq![Seq::<(u64, ID)>::empty()]);
        assert(bv.skip(0) =~= bv);
    }
    let m: usize = r.body.len();
    let mut j: usize = 0;
    while j < m
        invariant
            m == r.body@.len(),
            fv == fact_views(facts@),
            bv == r@.body,
            0 <= j <= m,
            query_body_model(binding_views(cands@), bv.skip(j as int), fv) == query_rule_model(
                fv,
                r@,
            ),
        decreases m - j,
    {
        proof {
            assert(bv.skip(j as int)[0] == bv[j as int]);
            assert(bv.skip(j as int).skip(1) =~= bv.skip(j as int + 1));
            assert(r.body@[j as int]@ == bv[j as int]);
        }
        cands = extend_all(&cands, &r.body[j], facts);
        j += 1;
    }
    proof {
        assert(bv.skip(m as int) =~= Seq::<PredicateModel>::empty());
    }
    cands
}

/// `facts` with `f` asserted, deduplicated.
pub open spec fn insert_fact_model(fs: Seq<PredicateModel>, f: PredicateModel) -> Seq<
    PredicateModel,
> {
    if fs.contains(f) {
        fs
    } else {
        fs.push(f)
    }
}

/// `acc` extended with the ground instantiations of `head` under each of
/// `bs`, deduplicated, in binding order.
pub open spec fn push_derived_model(
    acc: Seq<PredicateModel>,
    bs: Seq<Seq<(u64, ID)>>,
    head: PredicateModel,
) -> Seq<PredicateModel>
    decreases bs.len(),
{
    if bs.len() == 0 {
        acc
    } else {
        let d = subst_pred_model(bs[0], head);
        let acc2 = if pred_is_ground(d) && !acc.contains(d) {
            acc.push(d)
        } else {
            acc
        };
        push_derived_model(acc2, bs.skip(1), head)
    }
}

/// `acc` extended with every fact one application of a rule of `rules`
/// derives from `base`, in rule order.
pub open spec fn pass_rules_model(
    base: Seq<PredicateModel>,
    rules: Seq<RuleModel>,
    acc: Seq<PredicateModel>,
) -> Seq<PredicateModel>
    decreases rules.len(),
{
    if rules.len() == 0 {
        acc
    } else {
        pass_rules_model(
            base,
            rules.skip(1),
            push_derived_model(acc, query_rule_model(base, rules[0]), rules[0].head),
        )
    }
}

/// One evaluation pass: `facts` extended with every fact derivable from it
/// by a single rule application.
pub open spec fn one_pass_model(facts: Seq<PredicateModel>, rules: Seq<RuleModel>) -> Seq<
    PredicateModel,
> {
    pass_rules_model(facts, rules, facts)
}

/// Budget of evaluation passes. Every pass short of the fixed point adds at
/// least one fact, so no realizable input exhausts this.
pub open spec fn eval_fuel() -> nat {
    0xffff_ffff_ffff_ffff as nat
}

/// The fact base after repeated passes, stopping at the fixed point or
/// after `fuel` passes, whichever comes first.
pub open spec fn closure_model(
    facts: Seq<PredicateModel>,
    rules: Seq<RuleModel>,
    fuel: nat,
) -> Seq<PredicateModel>
    decreases fuel,
{
    if fuel == 0 {
        facts
    } else {
        let f2 = one_pass_model(facts, rules);
        if f2.len() == facts.len() {
            facts
        } else {
            closure_model(f2, rules, (fuel - 1) as nat)
        }
    }
}

pub proof fn lemma_push_derived_extends(
    acc: Seq<PredicateModel>,
    bs: Seq<Seq<(u64, ID)>>,
    head: PredicateModel,
)
    ensures
        push_derived_model(acc, bs, head).len() >= acc.len(),
        forall|j: int| 0 <= j < acc.len() ==> #[trigger] push_derived_model(acc, bs, head)[j]
            == acc[j],
    decreases bs.len(),
{
    if bs.len() > 0 {
        let d = subst_pred_model(bs[0], head);
        let acc2 = if pred_is_ground(d) && !acc.contains(d) {
            acc.push(d)
        } else {
            acc
        };
        lemma_push_derived_extends(acc2, bs.skip(1), head);
    }
}

pub proof fn lemma_pass_rules_extends(
    base: Seq<PredicateModel>,
    rules: Seq<RuleModel>,
    acc: Seq<PredicateModel>,
)
    ensures
        pass_rules_model(base, rules, acc).len() >= acc.len(),
        forall|j: int| 0 <= j < acc.len() ==> #[trigger] pass_rules_model(base, rules, acc)[j]
            == acc[j],
    decreases rules.len(),
{
    if rules.len() > 0 {
        let acc2 = push_derived_model(acc, query_rule_model(base, rules[0]), rules[0].head);
        lemma_push_derived_extends(acc, query_rule_model(base, rules[0]), rules[0].head);
        lemma_pass_rules_extends(base, rules.skip(1), acc2);
    }
}

/// A pass never removes a fact: its input is a prefix of its output.
pub proof fn lemma_one_pass_extends(facts: Seq<PredicateModel>, rules: Seq<RuleModel>)
    ensures
        one_pass_model(facts, rules).len() >= facts.len(),
        forall|j: int| 0 <= j < facts.len() ==> #[trigger] one_pass_model(facts, rules)[j]
            == facts[j],
{
    lemma_pass_rules_extends(facts, rules, facts);
}

/// Running to closure never removes a fact: the input is a prefix of the
/// output, so the fact base only grows.
pub proof fn lemma_closure_extends(
    facts: Seq<PredicateModel>,
    rules: Seq<RuleModel>,
    fuel: nat,
)
    ensures
        closure_model(facts, rules, fuel).len() >= facts.len(),
        forall|j: int| 0 <= j < facts.len() ==> #[trigger] closure_model(facts, rules, fuel)[j]
            == facts[j],
    decreases fuel,
{
    if fuel > 0 {
        let f2 = one_pass_model(facts, rules);
        lemma_one_pass_extends(facts, rules);
        if f2.len() != facts.len() {
            lemma_closure_extends(f2, rules, (fuel - 1) as nat);
        }
    }
}

/// Transient evaluation workspace for one check: a deduplicated fact base
/// and the rules it is run to closure under. Cloned per block, never shared.
#[derive(Debug)]
pub struct World {
    pub facts: Vec<Fact>,
    pub rules: Vec<Rule>,
}

/// Mathematical model of a workspace.
pub struct WorldModel {
    pub facts: Seq<PredicateModel>,
    pub rules: Seq<RuleModel>,
}

impl View for World {
    type V = WorldModel;

    open spec fn view(&self) -> WorldModel {
        WorldModel { facts: fact_views(self.facts@), rules: rule_views(self.rules@) }
    }
}

impl World {
    pub fn new() -> (r: World)
        ensures
            r@.facts == Seq::<PredicateModel>::empty(),
            r@.rules == Seq::<RuleModel>::empty(),
    {
        let r = World { facts: Vec::new(), rules: Vec::new() };
        proof {
            assert(r@.facts =~= Seq::<PredicateModel>::empty());
            assert(r@.rules =~= Seq::<RuleModel>::empty());
        }
        r
    }

    /// Asserts `f`, deduplicating by value.
    pub fn insert(&mut self, f: Fact)
        ensures
            final(self)@.facts == insert_fact_model(old(self)@.facts, f@),
            final(self)@.rules == old(self)@.rules,
    {
        if !facts_contain(&self.facts, &f) {
            let ghost prev = self@.facts;
            self.facts.push(f);
            proof {
                assert(self@.facts =~= prev.push(f@));
                assert(self@.rules =~= old(self)@.rules);
            }
        }
    }

    /// Appends a derivation rule.
    pub fn add_rule(&mut self, r: Rule)
        ensures
            final(self)@.rules == old(self)@.rules.push(r@),
            final(self)@.facts == old(self)@.facts,
    {
        let ghost prev = self@.rules;
        self.rules.push(r);
        proof {
            assert(self@.rules =~= prev.push(r@));
            assert(self@.facts =~= old(self)@.facts);
        }
    }

    /// An independent copy of the workspace; the per-block isolation device.
    pub fn duplicate(&self) -> (r: World)
        ensures
            r@ == self@,
    {
        let facts = copy_facts(&self.facts);
        let n: usize = self.rules.len();
        let mut rules: Vec<Rule> = Vec::new();
        let mut i: usize = 0;
        while i < n
            invariant
                n == self.rules@.len(),
                0 <= i <= n,
                rules@.len() == i,
                forall|j: int| 0 <= j < i ==> #[trigger] rules@[j]@ == self.rules@[j]@,
            decreases n - i,
        {
            let one = copy_rule(&self.rules[i]);
            rules.push(one);
            i += 1;
        }
        let r = World { facts, rules };
        proof {
            assert(r@.facts =~= self@.facts);
            assert(r@.rules =~= self@.rules);
        }
        r
    }

    /// Every substitution satisfying the body of `r` against the fact base,
    /// without mutating it; empty means no satisfying assignment exists.
    pub fn query_rule(&self, r: &Rule) -> (res: Vec<Binding>)
        ensures
            binding_views(res@) == query_rule_model(self@.facts, r@),
    {
        query_facts(&self.facts, r)
    }

    fn one_pass(&mut self)
        ensures
            final(self)@.facts == one_pass_model(old(self)@.facts, old(self)@.rules),
            final(self)@.rules == old(self)@.rules,
            final(self)@.facts.len() >= old(self)@.facts.len(),
    {
        let base: Vec<Fact> = copy_facts(&self.facts);
        let ghost basev = old(self)@.facts;
        let ghost rulesv = old(self)@.rules;
        let nr: usize = self.rules.len();
        proof {
            assert(rulesv.skip(0) =~= rulesv);
        }
        let mut k: usize = 0;
        while k < nr
            invariant
                nr == self.rules@.len(),
                self@.rules == rulesv,
                fact_views(base@) == basev,
                0 <= k <= nr,
                pass_rules_model(basev, rulesv.skip(k as int), self@.facts) == one_pass_model(
                    basev,
                    rulesv,
                ),
                self@.facts.len() >= basev.len(),
            decreases nr - k,
        {
            proof {
                assert(rulesv.skip(k as int)[0] == rulesv[k as int]);
                assert(rulesv.skip(k as int).skip(1) =~= rulesv.skip(k as int + 1));
                assert(self.rules@[k as int]@ == rulesv[k as int]);
            }
            let bs = query_facts(&base, &self.rules[k]);
            let ghost bsv = binding_views(bs@);
            let ghost head = rulesv[k as int].head;
            let ghost accv = self@.facts;
            let m: usize = bs.len();
            proof {
                assert(bsv.skip(0) =~= bsv);
            }
            let mut t: usize = 0;
            while t < m
                invariant
                    m == bs@.len(),
                    bsv == binding_views(bs@),
                    nr == self.rules@.len(),
                    self@.rules == rulesv,
                    0 <= k < nr,
                    head == rulesv[k as int].head,
                    0 <= t <= m,
                    push_derived_model(self@.facts, bsv.skip(t as int), head) == push_derived_model(
                        accv,
                        bsv,
                        head,
                    ),
                    self@.facts.len() >= accv.len(),
                decreases m - t,
            {
                proof {
                    assert(bsv.skip(t as int)[0] == bsv[t as int]);
                    assert(bsv.skip(t as int).skip(1) =~= bsv.skip(t as int + 1));
                    assert(bs@[t as int]@ == bsv[t as int]);
                    assert(self.rules@[k as int]@.head == head);
                }
                let d: Predicate = subst_pred(&bs[t], &self.rules[k].head);
                let df = Fact(d);
                if pred_ground(&df.0) && !facts_contain(&self.facts, &df) {
                    let ghost prevf = self@.facts;
                    self.facts.push(df);
                    proof {
                        assert(self@.facts =~= prevf.push(df@));
                    }
                }
                t += 1;
            }
            proof {
                assert(bsv.skip(m as int) =~= Seq::<Seq<(u64, ID)>>::empty());
            }
            k += 1;
        }
        proof {
            assert(rulesv.skip(nr as int) =~= Seq::<RuleModel>::empty());
        }
    }

    /// Runs the fact base to closure under the current rules: derived facts
    /// are added (deduplicated) until a pass adds nothing new. Facts only
    /// grow; the rules are untouched.
    pub fn run(&mut self)
        ensures
            final(self)@.facts == closure_model(old(self)@.facts, old(self)@.rules, eval_fuel()),
            final(self)@.rules == old(self)@.rules,
            old(self)@.facts.is_prefix_of(final(self)@.facts),
    {
        proof {
            lemma_closure_extends(old(self)@.facts, old(self)@.rules, eval_fuel());
            assert(old(self)@.facts =~= closure_model(
                old(self)@.facts,
                old(self)@.rules,
                eval_fuel(),
            ).take(old(self)@.facts.len() as int));
        }
        let ghost init = old(self)@.facts;
        let ghost rulesv = old(self)@.rules;
        let mut fuel: u64 = 0xffff_ffff_ffff_ffff;
        let mut changed = true;
        while changed && fuel > 0
            invariant
                self@.rules == rulesv,
                changed ==> closure_model(init, rulesv, eval_fuel()) == closure_model(
                    self@.facts,
                    rulesv,
                    fuel as nat,
                ),
                !changed ==> closure_model(init, rulesv, eval_fuel()) == self@.facts,
            decreases fuel,
        {
            let ghost prev = self@.facts;
            let before: usize = self.facts.len();
            self.one_pass();
            changed = self.facts.len() != before;
            proof {
                lemma_one_pass_extends(prev, rulesv);
                if !changed {
                    assert(one_pass_model(prev, rulesv) =~= prev);
                    assert(closure_model(prev, rulesv, fuel as nat) == prev);
                } else {
                    assert(closure_model(prev, rulesv, fuel as nat) == closure_model(
                        self@.facts,
                        rulesv,
                        (fuel - 1) as nat,
                    ));
                }
            }
            fuel -= 1;
        }
    }
}

} // verus!
