//! Interned symbol table shared incrementally across a token chain.
//!
//! Symbol ids are assigned append-only and order-preserving: interning the
//! same string twice yields the same id, a new string always gets the next
//! unused id. The table is an ordered sequence of strings indexed by
//! position, so its length and ordering are first-class facts used by the
//! per-block delta mechanism.

use vstd::prelude::*;

use crate::datalog::Fact;
use crate::datalog::ID;
use crate::datalog::PredicateModel;
use crate::datalog::Rule;
use crate::datalog::RuleModel;

verus! {

/// Index of the first entry of `t` equal to `s`; meaningful only when
/// `t.contains(s)`.
pub open spec fn first_occ(t: Seq<Seq<char>>, s: Seq<char>) -> int
    decreases t.len(),
{
    if t.len() == 0 {
        0
    } else if t[0] == s {
        0
    } else {
        1 + first_occ(t.skip(1), s)
    }
}

pub proof fn lemma_first_occ_props(t: Seq<Seq<char>>, s: Seq<char>)
    requires
        t.contains(s),
    ensures
        0 <= first_occ(t, s) < t.len(),
        t[first_occ(t, s)] == s,
        forall|j: int| 0 <= j < first_occ(t, s) ==> t[j] != s,
    decreases t.len(),
{
    if t[0] == s {
    } else {
        let k = choose|k: int| 0 <= k < t.len() && t[k] == s;
        assert(t.skip(1)[k - 1] == s);
        assert(t.skip(1).contains(s));
        lemma_first_occ_props(t.skip(1), s);
        let f = first_occ(t, s);
        assert(t[f] == t.skip(1)[f - 1]);
        assert forall|j: int| 0 <= j < f implies t[j] != s by {
            if j > 0 {
                assert(t[j] == t.skip(1)[j - 1]);
            }
        }
    }
}

pub proof fn lemma_first_occ_found(t: Seq<Seq<char>>, s: Seq<char>, i: int)
    requires
        0 <= i < t.len(),
        t[i] == s,
        forall|j: int| 0 <= j < i ==> t[j] != s,
    ensures
        first_occ(t, s) == i,
        t.contains(s),
    decreases t.len(),
{
    assert(t.contains(s));
    if i > 0 {
        assert(t.skip(1)[i - 1] == s);
        assert forall|j: int| 0 <= j < i - 1 implies t.skip(1)[j] != s by {
            assert(t.skip(1)[j] == t[j + 1]);
        }
        lemma_first_occ_found(t.skip(1), s, i - 1);
    }
}

/// Bidirectional string/integer interning; the id of a string is its
/// position in the table.
#[derive(Clone, Debug)]
pub struct SymbolTable {
    pub symbols: Vec<String>,
}

impl View for SymbolTable {
    type V = Seq<Seq<char>>;

    open spec fn view(&self) -> Seq<Seq<char>> {
        self.symbols@.map_values(|s: String| s@)
    }
}

impl SymbolTable {
    pub fn new() -> (r: SymbolTable)
        ensures
            r@ == Seq::<Seq<char>>::empty(),
    {
        let r = SymbolTable { symbols: Vec::new() };
        proof {
            assert(r@ =~= Seq::<Seq<char>>::empty());
        }
        r
    }

    pub fn len(&self) -> (r: usize)
        ensures
            r == self@.len(),
    {
        self.symbols.len()
    }

    /// Lookup without mutation; `Some` carries the id of the first (and,
    /// for tables built through `insert`, only) occurrence of `s`.
    pub fn get(&self, s: &str) -> (r: Option<u64>)
        ensures
            match r {
                Some(i) => self@.contains(s@) && i as int == first_occ(self@, s@)
                    && i < self@.len() && self@[i as int] == s@,
                None => !self@.contains(s@),
            },
    {
        let owned: String = s.to_owned();
        let n: usize = self.symbols.len();
        let mut i: usize = 0;
        while i < n
            invariant
                n == self@.len(),
                0 <= i <= n,
                owned@ == s@,
                forall|j: int| 0 <= j < i ==> self@[j] != s@,
            decreases n - i,
        {
            if self.symbols[i] == owned {
                proof {
                    lemma_first_occ_found(self@, s@, i as int);
                }
                return Some(i as u64);
            }
            i += 1;
        }
        proof {
            assert forall|k: int| 0 <= k < self@.len() implies self@[k] != s@ by {}
        }
        None
    }

    /// Interns `s`: returns the existing id if already present, else appends
    /// `s` and returns the next unused id.
    pub fn insert(&mut self, s: &str) -> (r: u64)
        ensures
            old(self)@.contains(s@) ==> final(self)@ == old(self)@ && r as int == first_occ(
                old(self)@,
                s@,
            ),
            !old(self)@.contains(s@) ==> final(self)@ == old(self)@.push(s@) && r as int == old(
                self,
            )@.len(),
            r < final(self)@.len(),
            final(self)@[r as int] == s@,
    {
        match self.get(s) {
            Some(i) => {
                proof {
                    lemma_first_occ_props(self@, s@);
                }
                i
            },
            None => {
                let id: usize = self.symbols.len();
                self.symbols.push(s.to_owned());
                proof {
                    assert(self@ =~= old(self)@.push(s@));
                }
                id as u64
            },
        }
    }

    /// Like `insert`, but wraps the id for direct use in facts and rules.
    pub fn add(&mut self, s: &str) -> (r: ID)
        ensures
            old(self)@.contains(s@) ==> final(self)@ == old(self)@ && r == ID::Symbol(
                first_occ(old(self)@, s@) as u64,
            ),
            !old(self)@.contains(s@) ==> final(self)@ == old(self)@.push(s@) && r == ID::Symbol(
                old(self)@.len() as u64,
            ),
    {
        let i = self.insert(s);
        ID::Symbol(i)
    }

    /// Removes and returns every entry beyond `base_len`, leaving the
    /// receiver truncated to exactly `base_len` entries. This keeps a wire
    /// block's symbol payload proportional to its novelty, not to the
    /// chain's cumulative vocabulary.
    pub fn split_delta(&mut self, base_len: usize) -> (r: SymbolTable)
        requires
            base_len <= old(self)@.len(),
        ensures
            final(self)@ == old(self)@.subrange(0, base_len as int),
            r@ == old(self)@.subrange(base_len as int, old(self)@.len() as int),
    {
        let tail = self.symbols.split_off(base_len);
        let r = SymbolTable { symbols: tail };
        proof {
            assert(self@ =~= old(self)@.subrange(0, base_len as int));
            assert(r@ =~= old(self)@.subrange(base_len as int, old(self)@.len() as int));
        }
        r
    }

    /// Renders one term for diagnostics, resolving symbol ids back to their
    /// names; never used by the check logic itself.
    pub fn print_id(&self, i: &ID) -> (r: String)
        ensures
            r@ == render_id(self@, *i),
    {
        proof {
            reveal_strlit("#");
            reveal_strlit("$");
            reveal_strlit("-");
            reveal_strlit("@");
        }
        match *i {
            ID::Symbol(sv) => {
                let n: usize = self.symbols.len();
                if sv < n as u64 {
                    let name: String = self.symbols[sv as usize].clone();
                    proof {
                        assert(name@ == self@[sv as int]);
                    }
                    name
                } else {
                    let mut r = String::from_str("#");
                    r.append(render_u64(sv).as_str());
                    proof {
                        assert(r@ =~= seq!['#'] + dec_chars(sv as nat));
                    }
                    r
                }
            },
            ID::Variable(v) => {
                let mut r = String::from_str("$");
                r.append(render_u64(v).as_str());
                proof {
                    assert(r@ =~= seq!['$'] + dec_chars(v as nat));
                }
                r
            },
            ID::Integer(x) => {
                if x >= 0 {
                    render_u64(x as u64)
                } else {
                    let m: u64 = if x == i64::MIN {
                        9223372036854775808u64
                    } else {
                        (-x) as u64
                    };
                    proof {
                        assert(m as nat == (-(x as int)) as nat);
                    }
                    let mut r = String::from_str("-");
                    r.append(render_u64(m).as_str());
                    proof {
                        assert(r@ =~= seq!['-'] + dec_chars((-(x as int)) as nat));
                    }
                    r
                }
            },
            ID::Date(d) => {
                let mut r = String::from_str("@");
                r.append(render_u64(d).as_str());
                proof {
                    assert(r@ =~= seq!['@'] + dec_chars(d as nat));
                }
                r
            },
        }
    }

    fn print_args(&self, ids: &Vec<ID>) -> (r: String)
        ensures
            r@ == render_args(self@, ids@, 0),
    {
        proof {
            reveal_strlit(", ");
        }
        let n: usize = ids.len();
        let mut r = String::new();
        let mut j: usize = 0;
        while j < n
            invariant
                n == ids@.len(),
                0 <= j <= n,
                ", "@ == seq![',', ' '],
                r@ + render_args(self@, ids@, j as int) == render_args(self@, ids@, 0),
            decreases n - j,
        {
            let one = self.print_id(&ids[j]);
            r.append(one.as_str());
            if j + 1 < n {
                r.append(", ");
            }
            j += 1;
        }
        proof {
            assert(render_args(self@, ids@, n as int) =~= Seq::<char>::empty());
            assert(r@ + Seq::<char>::empty() =~= r@);
        }
        r
    }

    fn print_pred_inner(&self, name: u64, ids: &Vec<ID>) -> (r: String)
        ensures
            r@ == render_pred(self@, PredicateModel { name, ids: ids@ }),
    {
        proof {
            reveal_strlit("(");
            reveal_strlit(")");
        }
        let mut r = self.print_id(&ID::Symbol(name));
        r.append("(");
        let args = self.print_args(ids);
        r.append(args.as_str());
        r.append(")");
        proof {
            assert(r@ =~= render_pred(self@, PredicateModel { name, ids: ids@ }));
        }
        r
    }

    /// Deterministic diagnostic rendering of a fact, resolving ids back to
    /// names; never consulted by the check logic.
    pub fn print_fact(&self, f: &Fact) -> (r: String)
        ensures
            r@ == render_pred(self@, f@),
    {
        self.print_pred_inner(f.0.name, &f.0.ids)
    }

    /// Deterministic diagnostic rendering of a rule or caveat.
    pub fn print_rule(&self, x: &Rule) -> (r: String)
        ensures
            r@ == render_rule(self@, x@),
    {
        proof {
            reveal_strlit(" <- ");
            reveal_strlit(", ");
        }
        let mut r = self.print_pred_inner(x.head.name, &x.head.ids);
        r.append(" <- ");
        let ghost bv = x@.body;
        let n: usize = x.body.len();
        let mut j: usize = 0;
        while j < n
            invariant
                n == x.body@.len(),
                bv == x@.body,
                " <- "@ == seq![' ', '<', '-', ' '],
                ", "@ == seq![',', ' '],
                0 <= j <= n,
                r@ + render_body(self@, bv, j as int) == render_pred(self@, x@.head) + seq![
                    ' ',
                    '<',
                    '-',
                    ' ',
                ] + render_body(self@, bv, 0),
            decreases n - j,
        {
            proof {
                assert(x.body@[j as int]@ == bv[j as int]);
            }
            let one = self.print_pred_inner(x.body[j].name, &x.body[j].ids);
            r.append(one.as_str());
            if j + 1 < n {
                r.append(", ");
            }
            j += 1;
        }
        proof {
            assert(render_body(self@, bv, n as int) =~= Seq::<char>::empty());
            assert(r@ + Seq::<char>::empty() =~= r@);
        }
        r
    }

    /// An independent copy of the table.
    pub fn duplicate(&self) -> (r: SymbolTable)
        ensures
            r@ == self@,
    {
        let n: usize = self.symbols.len();
        let mut symbols: Vec<String> = Vec::new();
        let mut i: usize = 0;
        while i < n
            invariant
                n == self.symbols@.len(),
                0 <= i <= n,
                symbols@.len() == i,
                forall|j: int| 0 <= j < i ==> #[trigger] symbols@[j]@ == self.symbols@[j]@,
            decreases n - i,
        {
            let entry: String = self.symbols[i].clone();
            symbols.push(entry);
            i += 1;
        }
        let r = SymbolTable { symbols };
        proof {
            assert(r@ =~= self@);
        }
        r
    }

    /// Appends every entry of `other`, preserving order; the inverse of
    /// `split_delta` when `other` is the returned fragment.
    pub fn extend_from(&mut self, other: &SymbolTable)
        ensures
            final(self)@ == old(self)@ + other@,
    {
        let n: usize = other.symbols.len();
        let mut i: usize = 0;
        while i < n
            invariant
                n == other@.len(),
                0 <= i <= n,
                self@ == old(self)@ + other@.take(i as int),
            decreases n - i,
        {
            let ghost prev = self@;
            let entry: String = other.symbols[i].clone();
            self.symbols.push(entry);
            proof {
                assert(self@ =~~= prev.push(other@[i as int]));
                assert(prev.push(other@[i as int]) =~~= old(self)@ + other@.take(i as int + 1));
            }
            i += 1;
        }
        proof {
            assert(other@.take(n as int) =~~= other@);
        }
    }
}

/// The bootstrap table every chain starts from: the two reserved trust-scope
/// names, at ids 0 and 1.
pub fn default_symbol_table() -> (r: SymbolTable)
    ensures
        r@ == seq!["authority"@, "ambient"@],
        r@.len() == 2,
{
    let mut syms = SymbolTable::new();
    syms.insert("authority");
    proof {
        reveal_strlit("authority");
        reveal_strlit("ambient");
        assert("authority"@.len() == 9);
        assert("ambient"@.len() == 7);
        assert("authority"@ != "ambient"@);
    }
    syms.insert("ambient");
    proof {
        assert(syms@ =~~= seq!["authority"@, "ambient"@]);
    }
    syms
}

/// The decimal digit `d` as a character; meaningful only for `0 <= d < 10`.
pub open spec fn digit_char(d: int) -> char {
    if d == 0 {
        '0'
    } else if d == 1 {
        '1'
    } else if d == 2 {
        '2'
    } else if d == 3 {
        '3'
    } else if d == 4 {
        '4'
    } else if d == 5 {
        '5'
    } else if d == 6 {
        '6'
    } else if d == 7 {
        '7'
    } else if d == 8 {
        '8'
    } else {
        '9'
    }
}

/// The decimal rendering of `n`, most significant digit first.
pub open spec fn dec_chars(n: nat) -> Seq<char>
    decreases n,
{
    if n < 10 {
        seq![digit_char(n as int)]
    } else {
        dec_chars(n / 10) + seq![digit_char((n % 10) as int)]
    }
}

/// The rendering of one term: symbols resolve back to their name (unknown
/// ids keep a `#` prefix), variables carry a `$` prefix, dates an `@`.
pub open spec fn render_id(t: Seq<Seq<char>>, i: ID) -> Seq<char> {
    match i {
        ID::Symbol(s) => if s < t.len() {
            t[s as int]
        } else {
            seq!['#'] + dec_chars(s as nat)
        },
        ID::Variable(v) => seq!['$'] + dec_chars(v as nat),
        ID::Integer(x) => if x >= 0 {
            dec_chars(x as nat)
        } else {
            seq!['-'] + dec_chars((-(x as int)) as nat)
        },
        ID::Date(d) => seq!['@'] + dec_chars(d as nat),
    }
}

/// The arguments of index `j` onward, separated by a comma and a space.
pub open spec fn render_args(t: Seq<Seq<char>>, ids: Seq<ID>, j: int) -> Seq<char>
    decreases ids.len() - j,
{
    if j < 0 || j >= ids.len() {
        Seq::empty()
    } else if j == ids.len() - 1 {
        render_id(t, ids[j])
    } else {
        render_id(t, ids[j]) + seq![',', ' '] + render_args(t, ids, j + 1)
    }
}

/// The rendering of one predicate: its resolved name applied to its
/// rendered arguments.
pub open spec fn render_pred(t: Seq<Seq<char>>, p: PredicateModel) -> Seq<char> {
    render_id(t, ID::Symbol(p.name)) + seq!['('] + render_args(t, p.ids, 0) + seq![')']
}

/// The body patterns of index `j` onward, separated by a comma and a space.
pub open spec fn render_body(t: Seq<Seq<char>>, body: Seq<PredicateModel>, j: int) -> Seq<char>
    decreases body.len() - j,
{
    if j < 0 || j >= body.len() {
        Seq::empty()
    } else if j == body.len() - 1 {
        render_pred(t, body[j])
    } else {
        render_pred(t, body[j]) + seq![',', ' '] + render_body(t, body, j + 1)
    }
}

/// The rendering of a rule: its head, an arrow, and its body patterns.
pub open spec fn render_rule(t: Seq<Seq<char>>, r: RuleModel) -> Seq<char> {
    render_pred(t, r.head) + seq![' ', '<', '-', ' '] + render_body(t, r.body, 0)
}

/// One decimal digit as a string slice.
fn digit_str(d: u64) -> (r: &'static str)
    requires
        d < 10,
    ensures
        r@ == seq![digit_char(d as int)],
{
    proof {
        reveal_strlit("0");
        reveal_strlit("1");
        reveal_strlit("2");
        reveal_strlit("3");
        reveal_strlit("4");
        reveal_strlit("5");
        reveal_strlit("6");
        reveal_strlit("7");
        reveal_strlit("8");
        reveal_strlit("9");
    }
    let r: &'static str = if d == 0 {
        "0"
    } else if d == 1 {
        "1"
    } else if d == 2 {
        "2"
    } else if d == 3 {
        "3"
    } else if d == 4 {
        "4"
    } else if d == 5 {
        "5"
    } else if d == 6 {
        "6"
    } else if d == 7 {
        "7"
    } else if d == 8 {
        "8"
    } else {
        "9"
    };
    proof {
        assert(r@ =~= seq![digit_char(d as int)]);
    }
    r
}

/// The decimal rendering of `n`.
fn render_u64(n: u64) -> (r: String)
    ensures
        r@ == dec_chars(n as nat),
    decreases n,
{
    if n < 10 {
        String::from_str(digit_str(n))
    } else {
        let mut r = render_u64(n / 10);
        r.append(digit_str(n % 10));
        r
    }
}

/// Law: for any cumulative table and an extension of it, splitting the
/// extension at the prefix length and re-appending the returned fragment to
/// the prefix reconstructs the extension exactly, preserving order and ids.
pub proof fn lemma_split_delta_round_trip(t2: Seq<Seq<char>>, n: int)
    requires
        0 <= n <= t2.len(),
    ensures
        t2.subrange(0, n) + t2.subrange(n, t2.len() as int) == t2,
{
    assert(t2.subrange(0, n) + t2.subrange(n, t2.len() as int) =~= t2);
}

} // verus!
