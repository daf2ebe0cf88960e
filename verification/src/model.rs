//! The program model: predicates, facts and rules, with the well-formedness
//! conditions that the engine validates before it evaluates anything, and the
//! declarative satisfaction semantics that the engine's contracts refer to.

use vstd::prelude::*;

verus! {

/// A declared relation: a name (raw bytes) and a fixed arity.
pub struct PredDecl {
    pub name: Vec<u8>,
    pub arity: usize,
}

/// A term of a rule atom: a variable (by index) or a constant (a dictionary
/// id).
#[derive(Clone, Copy, Debug, PartialEq, Eq, Structural)]
pub enum Term {
    Var(usize),
    Const(usize),
}

/// One predicate applied to a list of terms.
pub struct RuleAtom {
    pub pred: usize,
    pub terms: Vec<Term>,
}

/// A body literal: an atom, taken positively or negated.
pub struct BodyLiteral {
    pub positive: bool,
    pub atom: RuleAtom,
}

/// A derivation rule: the head holds whenever the body is satisfied.  The
/// rule's variables are indices below `num_vars`.
pub struct Rule {
    pub head: RuleAtom,
    pub body: Vec<BodyLiteral>,
    pub num_vars: usize,
}

/// A ground base fact: a predicate id and constant ids for its columns.
pub struct Fact {
    pub pred: usize,
    pub args: Vec<usize>,
}

/// A full logic program: declared predicates, the constant dictionary, the
/// base facts and the rules.  Immutable once handed to an engine.
pub struct Program {
    pub preds: Vec<PredDecl>,
    pub constants: Vec<Vec<u8>>,
    pub facts: Vec<Fact>,
    pub rules: Vec<Rule>,
}

// ---------------------------------------------------------------------------
// Well-formedness
// ---------------------------------------------------------------------------

/// Two declarations of the same predicate name disagree on arity.
pub open spec fn decls_conflict(preds: Seq<PredDecl>) -> bool {
    exists|i: int, j: int|
        0 <= i < j < preds.len() && preds[i].name@ == preds[j].name@ && preds[i].arity
            != preds[j].arity
}

/// Two dictionary entries hold the same byte value.
pub open spec fn constants_conflict(constants: Seq<Vec<u8>>) -> bool {
    exists|i: int, j: int| 0 <= i < j < constants.len() && constants[i]@ == constants[j]@
}

/// The fact names a declared predicate, matches its arity, and only uses
/// constants of the dictionary.
pub open spec fn fact_wf(p: &Program, f: Fact) -> bool {
    &&& f.pred < p.preds@.len()
    &&& f.args@.len() == p.preds@[f.pred as int].arity
    &&& forall|k: int| 0 <= k < f.args@.len() ==> #[trigger] f.args@[k] < p.constants@.len()
}

/// A constant term names a dictionary entry.
pub open spec fn term_wf(p: &Program, t: Term) -> bool {
    match t {
        Term::Var(_) => true,
        Term::Const(c) => c < p.constants@.len(),
    }
}

/// The atom names a declared predicate, matches its arity, and its constant
/// terms are in the dictionary.
pub open spec fn atom_wf(p: &Program, a: RuleAtom) -> bool {
    &&& a.pred < p.preds@.len()
    &&& a.terms@.len() == p.preds@[a.pred as int].arity
    &&& forall|k: int| 0 <= k < a.terms@.len() ==> term_wf(p, #[trigger] a.terms@[k])
}

/// Every variable of the atom lies below the rule's variable count.
pub open spec fn atom_vars_ok(a: RuleAtom, nv: usize) -> bool {
    forall|k: int|
        0 <= k < a.terms@.len() && (#[trigger] a.terms@[k]) is Var ==> a.terms@[k]->Var_0 < nv
}

/// Head and every body atom of the rule are well-formed, with every variable
/// below the rule's variable count.
pub open spec fn rule_wf(p: &Program, r: Rule) -> bool {
    &&& atom_wf(p, r.head)
    &&& atom_vars_ok(r.head, r.num_vars)
    &&& forall|j: int|
        0 <= j < r.body@.len() ==> atom_wf(p, (#[trigger] r.body@[j]).atom) && atom_vars_ok(
            r.body@[j].atom,
            r.num_vars,
        )
}

/// Schema consistency of a whole program: no arity conflict, no duplicate
/// dictionary entry, every fact and rule well-formed.
pub open spec fn schema_ok(p: &Program) -> bool {
    &&& !decls_conflict(p.preds@)
    &&& !constants_conflict(p.constants@)
    &&& forall|i: int| 0 <= i < p.facts@.len() ==> fact_wf(p, #[trigger] p.facts@[i])
    &&& forall|i: int| 0 <= i < p.rules@.len() ==> rule_wf(p, #[trigger] p.rules@[i])
}

/// The atom mentions variable `v`.
pub open spec fn atom_has_var(a: RuleAtom, v: usize) -> bool {
    exists|k: int| 0 <= k < a.terms@.len() && a.terms@[k] == Term::Var(v)
}

/// Variable `v` occurs in some positive body literal of the rule.
pub open spec fn var_in_positive_body(r: Rule, v: usize) -> bool {
    exists|j: int|
        0 <= j < r.body@.len() && (#[trigger] r.body@[j]).positive && atom_has_var(r.body@[j].atom, v)
}

/// Range restriction (safety): every variable of the head and of every
/// negated body atom also occurs in a positive body atom.
pub open spec fn rule_safe(r: Rule) -> bool {
    &&& forall|k: int|
        0 <= k < r.head.terms@.len() && (#[trigger] r.head.terms@[k]) is Var
            ==> var_in_positive_body(r, r.head.terms@[k]->Var_0)
    &&& forall|j: int, k: int|
        0 <= j < r.body@.len() && !r.body@[j].positive && 0 <= k < r.body@[j].atom.terms@.len()
            && (#[trigger] r.body@[j].atom.terms@[k]) is Var
            ==> var_in_positive_body(r, r.body@[j].atom.terms@[k]->Var_0)
}

/// Every rule of the program is range-restricted.
pub open spec fn rules_safe(p: &Program) -> bool {
    forall|i: int| 0 <= i < p.rules@.len() ==> rule_safe(#[trigger] p.rules@[i])
}

// ---------------------------------------------------------------------------
// Satisfaction semantics
// ---------------------------------------------------------------------------

/// The value of a term under a variable assignment.
pub open spec fn term_value(t: Term, sub: Map<usize, usize>) -> usize {
    match t {
        Term::Const(c) => c,
        Term::Var(v) => sub[v],
    }
}

/// The ground tuple an atom denotes under an assignment.
pub open spec fn atom_image(a: RuleAtom, sub: Map<usize, usize>) -> Seq<usize> {
    a.terms@.map_values(|t: Term| term_value(t, sub))
}

/// Whether a body literal is satisfied by a database (one tuple set per
/// predicate) under an assignment.
pub open spec fn lit_sat(l: BodyLiteral, db: Seq<Set<Seq<usize>>>, sub: Map<usize, usize>) -> bool {
    if l.positive {
        db[l.atom.pred as int].contains(atom_image(l.atom, sub))
    } else {
        !db[l.atom.pred as int].contains(atom_image(l.atom, sub))
    }
}

/// Whether an assignment satisfies the whole body of a rule.
pub open spec fn rule_body_sat(r: Rule, db: Seq<Set<Seq<usize>>>, sub: Map<usize, usize>) -> bool {
    forall|j: int| 0 <= j < r.body@.len() ==> lit_sat(#[trigger] r.body@[j], db, sub)
}

/// Whether the rule derives tuple `t` from the database: some assignment
/// satisfies the body and maps the head onto `t`.
pub open spec fn rule_derives(r: Rule, db: Seq<Set<Seq<usize>>>, t: Seq<usize>) -> bool {
    exists|sub: Map<usize, usize>| rule_body_sat(r, db, sub) && t == atom_image(r.head, sub)
}

/// Predicate `q` is intensional: it is the head of at least one rule.
pub open spec fn is_idb(p: &Program, q: usize) -> bool {
    exists|i: int| 0 <= i < p.rules@.len() && (#[trigger] p.rules@[i]).head.pred == q
}

/// One database extends another pointwise.
pub open spec fn db_sets_extend(db1: Seq<Set<Seq<usize>>>, db2: Seq<Set<Seq<usize>>>) -> bool {
    &&& db1.len() == db2.len()
    &&& forall|q: int| 0 <= q < db1.len() ==> (#[trigger] db1[q]).subset_of(db2[q])
}

/// Monotonicity of negation-free rules, the ground of monotone fixpoint
/// accumulation: whatever a rule without negated body literals derives from a
/// database, it also derives from every extension of that database.
pub proof fn lemma_positive_rule_monotone(
    r: Rule,
    db1: Seq<Set<Seq<usize>>>,
    db2: Seq<Set<Seq<usize>>>,
    t: Seq<usize>,
)
    requires
        forall|j: int| 0 <= j < r.body@.len() ==> (#[trigger] r.body@[j]).positive,
        forall|j: int| 0 <= j < r.body@.len() ==> (#[trigger] r.body@[j]).atom.pred < db1.len(),
        db_sets_extend(db1, db2),
        rule_derives(r, db1, t),
    ensures
        rule_derives(r, db2, t),
{
    let sub = choose|sub: Map<usize, usize>|
        rule_body_sat(r, db1, sub) && t == atom_image(r.head, sub);
    assert forall|j: int| 0 <= j < r.body@.len() implies lit_sat(#[trigger] r.body@[j], db2, sub) by {
        assert(lit_sat(r.body@[j], db1, sub));
        assert(db1[r.body@[j].atom.pred as int].contains(atom_image(r.body@[j].atom, sub)));
    }
    assert(rule_body_sat(r, db2, sub) && t == atom_image(r.head, sub));
}

/// Structural equality of atoms.
pub open spec fn atom_eq(a: RuleAtom, b: RuleAtom) -> bool {
    &&& a.pred == b.pred
    &&& a.terms@ == b.terms@
}

/// Structural equality of rules.
pub open spec fn rule_eq(a: Rule, b: Rule) -> bool {
    &&& atom_eq(a.head, b.head)
    &&& a.num_vars == b.num_vars
    &&& a.body@.len() == b.body@.len()
    &&& forall|j: int|
        0 <= j < a.body@.len() ==> (#[trigger] a.body@[j]).positive == b.body@[j].positive
            && atom_eq(a.body@[j].atom, b.body@[j].atom)
}

// ---------------------------------------------------------------------------
// Construction
// ---------------------------------------------------------------------------

/// Byte-vector equality, stated over the views.
#[verifier::loop_isolation(false)]
pub fn bytes_eq(a: &Vec<u8>, b: &Vec<u8>) -> (r: bool)
    ensures
        r <==> a@ == b@,
{
    if a.len() != b.len() {
        return false;
    }
    let mut i: usize = 0;
    while i < a.len()
        invariant
            a@.len() == b@.len(),
            i <= a@.len(),
            forall|k: int| 0 <= k < i ==> a@[k] == b@[k],
        decreases a@.len() - i,
    {
        if a[i] != b[i] {
            return false;
        }
        i += 1;
    }
    proof {
        assert(a@ =~= b@);
    }
    true
}

/// Decides whether an atom is well-formed for the program.
#[verifier::loop_isolation(false)]
fn check_atom(p: &Program, a: &RuleAtom, nv: usize) -> (r: bool)
    ensures
        r == (atom_wf(p, *a) && atom_vars_ok(*a, nv)),
{
    if a.pred >= p.preds.len() {
        return false;
    }
    if a.terms.len() != p.preds[a.pred].arity {
        return false;
    }
    let mut k: usize = 0;
    while k < a.terms.len()
        invariant
            k <= a.terms@.len(),
            a.pred < p.preds@.len(),
            a.terms@.len() == p.preds@[a.pred as int].arity,
            forall|m: int| 0 <= m < k ==> term_wf(p, #[trigger] a.terms@[m]),
            forall|m: int|
                0 <= m < k && (#[trigger] a.terms@[m]) is Var ==> a.terms@[m]->Var_0 < nv,
        decreases a.terms@.len() - k,
    {
        match a.terms[k] {
            Term::Var(v) => {
                if v >= nv {
                    return false;
                }
            },
            Term::Const(c) => {
                if c >= p.constants.len() {
                    return false;
                }
            },
        }
        k += 1;
    }
    true
}

/// Decides schema consistency of a whole program.
#[verifier::loop_isolation(false)]
pub fn check_schema(p: &Program) -> (r: bool)
    ensures
        r == schema_ok(p),
{
    let mut i: usize = 0;
    while i < p.preds.len()
        invariant
            i <= p.preds@.len(),
            forall|a: int, b: int|
                0 <= a < b < p.preds@.len() && a < i ==> !(p.preds@[a].name@ == p.preds@[b].name@
                    && p.preds@[a].arity != p.preds@[b].arity),
        decreases p.preds@.len() - i,
    {
        let mut j: usize = i + 1;
        while j < p.preds.len()
            invariant
                i < j <= p.preds@.len() || (i >= p.preds@.len() && j == i + 1),
                i < p.preds@.len(),
                forall|b: int|
                    i < b < j ==> !(p.preds@[i as int].name@ == p.preds@[b].name@
                        && p.preds@[i as int].arity != p.preds@[b].arity),
            decreases p.preds@.len() - j,
        {
            if p.preds[i].arity != p.preds[j].arity && bytes_eq(&p.preds[i].name, &p.preds[j].name)
            {
                proof {
                    assert(0 <= i < j < p.preds@.len() && p.preds@[i as int].name@ == p.preds@[j as int].name@
                        && p.preds@[i as int].arity != p.preds@[j as int].arity);
                    assert(decls_conflict(p.preds@));
                }
                return false;
            }
            j += 1;
        }
        i += 1;
    }
    let mut i: usize = 0;
    while i < p.constants.len()
        invariant
            i <= p.constants@.len(),
            forall|a: int, b: int|
                0 <= a < b < p.constants@.len() && a < i ==> !(p.constants@[a]@
                    == p.constants@[b]@),
        decreases p.constants@.len() - i,
    {
        let mut j: usize = i + 1;
        while j < p.constants.len()
            invariant
                i < j <= p.constants@.len() || (i >= p.constants@.len() && j == i + 1),
                i < p.constants@.len(),
                forall|b: int| i < b < j ==> !(p.constants@[i as int]@ == p.constants@[b]@),
            decreases p.constants@.len() - j,
        {
            if bytes_eq(&p.constants[i], &p.constants[j]) {
                proof {
                    assert(0 <= i < j < p.constants@.len() && p.constants@[i as int]@
                        == p.constants@[j as int]@);
                    assert(constants_conflict(p.constants@));
                }
                return false;
            }
            j += 1;
        }
        i += 1;
    }
    let mut i: usize = 0;
    while i < p.facts.len()
        invariant
            i <= p.facts@.len(),
            forall|m: int| 0 <= m < i ==> fact_wf(p, #[trigger] p.facts@[m]),
        decreases p.facts@.len() - i,
    {
        let f = &p.facts[i];
        if f.pred >= p.preds.len() {
            return false;
        }
        if f.args.len() != p.preds[f.pred].arity {
            return false;
        }
        let mut k: usize = 0;
        while k < f.args.len()
            invariant
                k <= f.args@.len(),
                forall|m: int| 0 <= m < k ==> #[trigger] f.args@[m] < p.constants@.len(),
        decreases f.args@.len() - k,
        {
            if f.args[k] >= p.constants.len() {
                return false;
            }
            k += 1;
        }
        i += 1;
    }
    let mut i: usize = 0;
    while i < p.rules.len()
        invariant
            i <= p.rules@.len(),
            !decls_conflict(p.preds@),
            !constants_conflict(p.constants@),
            forall|m: int| 0 <= m < p.facts@.len() ==> fact_wf(p, #[trigger] p.facts@[m]),
            forall|m: int| 0 <= m < i ==> rule_wf(p, #[trigger] p.rules@[m]),
        decreases p.rules@.len() - i,
    {
        let r = &p.rules[i];
        if !check_atom(p, &r.head, r.num_vars) {
            return false;
        }
        let mut j: usize = 0;
        while j < r.body.len()
            invariant
                j <= r.body@.len(),
                atom_wf(p, r.head),
                atom_vars_ok(r.head, r.num_vars),
                forall|m: int|
                    0 <= m < j ==> atom_wf(p, (#[trigger] r.body@[m]).atom) && atom_vars_ok(
                        r.body@[m].atom,
                        r.num_vars,
                    ),
            decreases r.body@.len() - j,
        {
            if !check_atom(p, &r.body[j].atom, r.num_vars) {
                return false;
            }
            j += 1;
        }
        i += 1;
    }
    true
}

/// Decides whether variable `v` occurs in a positive body literal of `r`.
#[verifier::loop_isolation(false)]
fn check_var_in_positive_body(r: &Rule, v: usize) -> (res: bool)
    ensures
        res == var_in_positive_body(*r, v),
{
    let mut j: usize = 0;
    while j < r.body.len()
        invariant
            j <= r.body@.len(),
            forall|m: int|
                0 <= m < j ==> !((#[trigger] r.body@[m]).positive && atom_has_var(
                    r.body@[m].atom,
                    v,
                )),
        decreases r.body@.len() - j,
    {
        if r.body[j].positive {
            let a = &r.body[j].atom;
            let mut k: usize = 0;
            while k < a.terms.len()
                invariant
                    k <= a.terms@.len(),
                    forall|m: int| 0 <= m < k ==> a.terms@[m] != Term::Var(v),
                decreases a.terms@.len() - k,
            {
                match a.terms[k] {
                    Term::Var(w) => {
                        if w == v {
                            proof {
                                assert(a.terms@[k as int] == Term::Var(v));
                                assert(atom_has_var(r.body@[j as int].atom, v));
                                assert(r.body@[j as int].positive);
                                assert(var_in_positive_body(*r, v));
                            }
                            return true;
                        }
                    },
                    Term::Const(_) => {},
                }
                k += 1;
            }
        }
        j += 1;
    }
    false
}

/// Decides range restriction of one rule.
#[verifier::loop_isolation(false)]
fn check_rule_safe(r: &Rule) -> (res: bool)
    ensures
        res == rule_safe(*r),
{
    let mut k: usize = 0;
    while k < r.head.terms.len()
        invariant
            k <= r.head.terms@.len(),
            forall|m: int|
                0 <= m < k && (#[trigger] r.head.terms@[m]) is Var ==> var_in_positive_body(
                    *r,
                    r.head.terms@[m]->Var_0,
                ),
        decreases r.head.terms@.len() - k,
    {
        match r.head.terms[k] {
            Term::Var(v) => {
                if !check_var_in_positive_body(r, v) {
                    return false;
                }
            },
            Term::Const(_) => {},
        }
        k += 1;
    }
    let mut j: usize = 0;
    while j < r.body.len()
        invariant
            j <= r.body@.len(),
            forall|m: int|
                0 <= m < k && (#[trigger] r.head.terms@[m]) is Var ==> var_in_positive_body(
                    *r,
                    r.head.terms@[m]->Var_0,
                ),
            k >= r.head.terms@.len(),
            forall|m: int, n: int|
                0 <= m < j && !r.body@[m].positive && 0 <= n < r.body@[m].atom.terms@.len() && (
                #[trigger] r.body@[m].atom.terms@[n]) is Var ==> var_in_positive_body(
                    *r,
                    r.body@[m].atom.terms@[n]->Var_0,
                ),
        decreases r.body@.len() - j,
    {
        if !r.body[j].positive {
            let a = &r.body[j].atom;
            let mut n: usize = 0;
            while n < a.terms.len()
                invariant
                    n <= a.terms@.len(),
                    forall|m: int|
                        0 <= m < n && (#[trigger] a.terms@[m]) is Var ==> var_in_positive_body(
                            *r,
                            a.terms@[m]->Var_0,
                        ),
                decreases a.terms@.len() - n,
            {
                match a.terms[n] {
                    Term::Var(v) => {
                        if !check_var_in_positive_body(r, v) {
                            proof {
                                assert(!r.body@[j as int].positive);
                                assert(r.body@[j as int].atom.terms@[n as int] == Term::Var(v));
                                assert(!rule_safe(*r));
                            }
                            return false;
                        }
                    },
                    Term::Const(_) => {},
                }
                n += 1;
            }
        }
        j += 1;
    }
    true
}

/// Decides range restriction of every rule of the program.
#[verifier::loop_isolation(false)]
pub fn check_safety(p: &Program) -> (r: bool)
    ensures
        r == rules_safe(p),
{
    let mut i: usize = 0;
    while i < p.rules.len()
        invariant
            i <= p.rules@.len(),
            forall|m: int| 0 <= m < i ==> rule_safe(#[trigger] p.rules@[m]),
        decreases p.rules@.len() - i,
    {
        if !check_rule_safe(&p.rules[i]) {
            return false;
        }
        i += 1;
    }
    true
}

impl Program {
    /// The empty program: no predicates, constants, facts or rules.
    pub fn new() -> (r: Program)
        ensures
            r.preds@.len() == 0,
            r.constants@.len() == 0,
            r.facts@.len() == 0,
            r.rules@.len() == 0,
    {
        Program { preds: Vec::new(), constants: Vec::new(), facts: Vec::new(), rules: Vec::new() }
    }

    /// Declares a predicate.  A declaration with the same name and arity is
    /// reused; otherwise a new entry is appended (a conflicting arity is
    /// recorded as declared and rejected later, at engine initialization).
    pub fn add_predicate(&mut self, name: Vec<u8>, arity: usize) -> (id: usize)
        ensures
            final(self).constants == old(self).constants,
            final(self).facts == old(self).facts,
            final(self).rules == old(self).rules,
            id < final(self).preds@.len(),
            final(self).preds@[id as int].name@ == name@,
            final(self).preds@[id as int].arity == arity,
            (exists|i: int|
                0 <= i < old(self).preds@.len() && (#[trigger] old(self).preds@[i]).name@ == name@
                    && old(self).preds@[i].arity == arity) ==> final(self).preds == old(self).preds,
            !(exists|i: int|
                0 <= i < old(self).preds@.len() && (#[trigger] old(self).preds@[i]).name@ == name@
                    && old(self).preds@[i].arity == arity) ==> final(self).preds@ == old(
                self,
            ).preds@.push(PredDecl { name, arity }) && id == old(self).preds@.len(),
    {
        let mut i: usize = 0;
        while i < self.preds.len()
            invariant
                i <= self.preds@.len(),
                forall|k: int|
                    0 <= k < i ==> !((#[trigger] self.preds@[k]).name@ == name@
                        && self.preds@[k].arity == arity),
            decreases self.preds@.len() - i,
        {
            if self.preds[i].arity == arity && bytes_eq(&self.preds[i].name, &name) {
                return i;
            }
            i += 1;
        }
        let id = self.preds.len();
        self.preds.push(PredDecl { name, arity });
        id
    }

    /// Interns a constant value: the id of the existing dictionary entry with
    /// these bytes, or a fresh entry appended at the end.
    pub fn add_constant(&mut self, value: Vec<u8>) -> (id: usize)
        ensures
            final(self).preds == old(self).preds,
            final(self).facts == old(self).facts,
            final(self).rules == old(self).rules,
            id < final(self).constants@.len(),
            final(self).constants@[id as int]@ == value@,
            (exists|i: int|
                0 <= i < old(self).constants@.len() && (#[trigger] old(self).constants@[i])@
                    == value@) ==> final(self).constants == old(self).constants,
            !(exists|i: int|
                0 <= i < old(self).constants@.len() && (#[trigger] old(self).constants@[i])@
                    == value@) ==> final(self).constants@ == old(self).constants@.push(value) && id
                == old(self).constants@.len(),
    {
        let mut i: usize = 0;
        while i < self.constants.len()
            invariant
                i <= self.constants@.len(),
                forall|k: int| 0 <= k < i ==> !((#[trigger] self.constants@[k])@ == value@),
            decreases self.constants@.len() - i,
        {
            if bytes_eq(&self.constants[i], &value) {
                return i;
            }
            i += 1;
        }
        let id = self.constants.len();
        self.constants.push(value);
        id
    }

    /// Appends a ground base fact.  Its consistency with the schema is
    /// checked at engine initialization.
    pub fn add_fact(&mut self, pred: usize, args: Vec<usize>) -> (r: ())
        ensures
            final(self).preds == old(self).preds,
            final(self).constants == old(self).constants,
            final(self).rules == old(self).rules,
            final(self).facts@ == old(self).facts@.push(Fact { pred, args }),
    {
        self.facts.push(Fact { pred, args });
    }

    /// Appends a derivation rule.  Its consistency with the schema and its
    /// safety are checked at engine initialization.
    pub fn add_rule(&mut self, rule: Rule) -> (r: ())
        ensures
            final(self).preds == old(self).preds,
            final(self).constants == old(self).constants,
            final(self).facts == old(self).facts,
            final(self).rules@ == old(self).rules@.push(rule),
    {
        self.rules.push(rule);
    }

    /// A deep, independent copy of the program: the copy shares no storage
    /// with the original, so mutating one never affects the other.
    #[verifier::loop_isolation(false)]
    pub fn duplicate(&self) -> (r: Program)
        ensures
            r.preds@.len() == self.preds@.len(),
            forall|i: int|
                0 <= i < self.preds@.len() ==> (#[trigger] r.preds@[i]).name@
                    == self.preds@[i].name@ && r.preds@[i].arity == self.preds@[i].arity,
            r.constants@.len() == self.constants@.len(),
            forall|i: int|
                0 <= i < self.constants@.len() ==> (#[trigger] r.constants@[i])@
                    == self.constants@[i]@,
            r.facts@.len() == self.facts@.len(),
            forall|i: int|
                0 <= i < self.facts@.len() ==> (#[trigger] r.facts@[i]).pred
                    == self.facts@[i].pred && r.facts@[i].args@ == self.facts@[i].args@,
            r.rules@.len() == self.rules@.len(),
            forall|i: int|
                0 <= i < self.rules@.len() ==> rule_eq(#[trigger] r.rules@[i], self.rules@[i]),
    {
        let mut preds: Vec<PredDecl> = Vec::new();
        let mut i: usize = 0;
        while i < self.preds.len()
            invariant
                i <= self.preds@.len(),
                preds@.len() == i,
                forall|m: int|
                    0 <= m < i ==> (#[trigger] preds@[m]).name@ == self.preds@[m].name@
                        && preds@[m].arity == self.preds@[m].arity,
            decreases self.preds@.len() - i,
        {
            preds.push(
                PredDecl { name: copy_bytes(&self.preds[i].name), arity: self.preds[i].arity },
            );
            i += 1;
        }
        let mut constants: Vec<Vec<u8>> = Vec::new();
        let mut i: usize = 0;
        while i < self.constants.len()
            invariant
                i <= self.constants@.len(),
                constants@.len() == i,
                forall|m: int| 0 <= m < i ==> (#[trigger] constants@[m])@ == self.constants@[m]@,
            decreases self.constants@.len() - i,
        {
            constants.push(copy_bytes(&self.constants[i]));
            i += 1;
        }
        let mut facts: Vec<Fact> = Vec::new();
        let mut i: usize = 0;
        while i < self.facts.len()
            invariant
                i <= self.facts@.len(),
                facts@.len() == i,
                forall|m: int|
                    0 <= m < i ==> (#[trigger] facts@[m]).pred == self.facts@[m].pred
                        && facts@[m].args@ == self.facts@[m].args@,
            decreases self.facts@.len() - i,
        {
            let mut args: Vec<usize> = Vec::new();
            let src = &self.facts[i].args;
            let mut k: usize = 0;
            while k < src.len()
                invariant
                    k <= src@.len(),
                    args@ =~= src@.take(k as int),
                decreases src@.len() - k,
            {
                args.push(src[k]);
                k += 1;
            }
            proof {
                assert(args@ =~= src@);
            }
            facts.push(Fact { pred: self.facts[i].pred, args });
            i += 1;
        }
        let mut rules: Vec<Rule> = Vec::new();
        let mut i: usize = 0;
        while i < self.rules.len()
            invariant
                i <= self.rules@.len(),
                rules@.len() == i,
                forall|m: int| 0 <= m < i ==> rule_eq(#[trigger] rules@[m], self.rules@[m]),
            decreases self.rules@.len() - i,
        {
            let src = &self.rules[i];
            let head = copy_atom(&src.head);
            let mut body: Vec<BodyLiteral> = Vec::new();
            let mut j: usize = 0;
            while j < src.body.len()
                invariant
                    j <= src.body@.len(),
                    body@.len() == j,
                    forall|m: int|
                        0 <= m < j ==> (#[trigger] body@[m]).positive == src.body@[m].positive
                            && atom_eq(body@[m].atom, src.body@[m].atom),
                decreases src.body@.len() - j,
            {
                body.push(
                    BodyLiteral {
                        positive: src.body[j].positive,
                        atom: copy_atom(&src.body[j].atom),
                    },
                );
                j += 1;
            }
            rules.push(Rule { head, body, num_vars: src.num_vars });
            i += 1;
        }
        Program { preds, constants, facts, rules }
    }
}

/// Copies a byte vector.
#[verifier::loop_isolation(false)]
fn copy_bytes(b: &Vec<u8>) -> (r: Vec<u8>)
    ensures
        r@ == b@,
{
    let mut r: Vec<u8> = Vec::new();
    let mut i: usize = 0;
    while i < b.len()
        invariant
            i <= b@.len(),
            r@ =~= b@.take(i as int),
        decreases b@.len() - i,
    {
        r.push(b[i]);
        i += 1;
    }
    proof {
        assert(b@.take(b@.len() as int) =~= b@);
    }
    r
}

/// Copies an atom.
#[verifier::loop_isolation(false)]
fn copy_atom(a: &RuleAtom) -> (r: RuleAtom)
    ensures
        atom_eq(r, *a),
{
    let mut terms: Vec<Term> = Vec::new();
    let mut k: usize = 0;
    while k < a.terms.len()
        invariant
            k <= a.terms@.len(),
            terms@ =~= a.terms@.take(k as int),
        decreases a.terms@.len() - k,
    {
        terms.push(a.terms[k]);
        k += 1;
    }
    proof {
        assert(terms@ =~= a.terms@);
    }
    RuleAtom { pred: a.pred, terms }
}

} // verus!
