//! The execution engine: owns a validated program, derives every entailed
//! fact by a stratified, semi-naive fixpoint, and finalizes one trie table
//! per intensional predicate.

use vstd::prelude::*;

use crate::model::{
    atom_vars_ok, check_safety, check_schema, fact_wf, is_idb, rule_wf, rules_safe, schema_ok,
    Program, Rule, RuleAtom, Term,
};
use crate::strata::{bounded_stratification_exists, strata_ok, stratify};
use crate::table::{row_of, TrieSerializer, TrieTable};
use crate::EngineError;

verus! {

/// The working extension of one predicate: its derived tuples, each held
/// once.
pub struct Relation {
    /// Number of columns of every tuple.
    pub arity: usize,
    /// Exclusive upper bound of every column id (the dictionary size).
    pub domain: usize,
    /// The tuples, in derivation order, without duplicates.
    pub tuples: Vec<Vec<usize>>,
}

/// The relation invariant: every tuple fills the arity with column ids below
/// the domain, and no tuple repeats.
pub open spec fn rel_inv(r: Relation) -> bool {
    &&& forall|i: int|
        0 <= i < r.tuples@.len() ==> (#[trigger] r.tuples@[i])@.len() == r.arity && (forall|k: int|
            0 <= k < r.arity ==> #[trigger] r.tuples@[i]@[k] < r.domain)
    &&& forall|i: int, j: int|
        0 <= i < j < r.tuples@.len() ==> r.tuples.deep_view()[i] != r.tuples.deep_view()[j]
}

/// Whether the relation holds the tuple.
pub open spec fn rel_contains(r: Relation, t: Seq<usize>) -> bool {
    r.tuples.deep_view().contains(t)
}

/// The deep view of a tuple list indexes to the views of its tuples.
pub proof fn lemma_tuples_deep_view(v: Vec<Vec<usize>>)
    ensures
        v.deep_view().len() == v@.len(),
        forall|i: int| 0 <= i < v@.len() ==> #[trigger] v.deep_view()[i] == v@[i]@,
{
    assert forall|i: int| 0 <= i < v@.len() implies #[trigger] v.deep_view()[i] == v@[i]@ by {
        assert(v.deep_view()[i] =~= v@[i]@);
    }
}

/// Tuple equality, stated over the views.
#[verifier::loop_isolation(false)]
fn tuple_eq(a: &Vec<usize>, b: &Vec<usize>) -> (r: bool)
    ensures
        r <==> a@ == b@,
{
    if a.len() != b.len() {
        return false;
    }
    let mut i: usize = 0;
    while i < a.len()
        invariant
            a@.len() == b@.len(),
            i <= a@.len(),
            forall|k: int| 0 <= k < i ==> a@[k] == b@[k],
        decreases a@.len() - i,
    {
        if a[i] != b[i] {
            return false;
        }
        i += 1;
    }
    proof {
        assert(a@ =~= b@);
    }
    true
}

/// Copies a tuple.
#[verifier::loop_isolation(false)]
fn copy_tuple(t: &Vec<usize>) -> (r: Vec<usize>)
    ensures
        r@ == t@,
{
    let mut r: Vec<usize> = Vec::new();
    let mut i: usize = 0;
    while i < t.len()
        invariant
            i <= t@.len(),
            r@ =~= t@.take(i as int),
        decreases t@.len() - i,
    {
        r.push(t[i]);
        i += 1;
    }
    proof {
        assert(t@.take(t@.len() as int) =~= t@);
    }
    r
}

impl Relation {
    /// An empty relation of the given arity over the given domain.
    pub fn empty(arity: usize, domain: usize) -> (r: Relation)
        ensures
            r.arity == arity,
            r.domain == domain,
            r.tuples@.len() == 0,
            rel_inv(r),
    {
        Relation { arity, domain, tuples: Vec::new() }
    }

    /// Whether the relation holds the tuple.
    #[verifier::loop_isolation(false)]
    pub fn contains_tuple(&self, t: &Vec<usize>) -> (r: bool)
        ensures
            r == rel_contains(*self, t@),
    {
        proof {
            lemma_tuples_deep_view(self.tuples);
        }
        let mut i: usize = 0;
        while i < self.tuples.len()
            invariant
                i <= self.tuples@.len(),
                forall|m: int| 0 <= m < i ==> self.tuples.deep_view()[m] != t@,
            decreases self.tuples@.len() - i,
        {
            if tuple_eq(&self.tuples[i], t) {
                proof {
                    assert(self.tuples.deep_view()[i as int] == t@);
                }
                return true;
            }
            i += 1;
        }
        false
    }

    /// Adds the tuple unless it is already present; reports whether it was
    /// added.
    pub fn insert_tuple(&mut self, t: Vec<usize>) -> (added: bool)
        requires
            rel_inv(*old(self)),
            t@.len() == old(self).arity,
            forall|k: int| 0 <= k < t@.len() ==> t@[k] < old(self).domain,
        ensures
            final(self).arity == old(self).arity,
            final(self).domain == old(self).domain,
            rel_inv(*final(self)),
            added == !rel_contains(*old(self), t@),
            added ==> final(self).tuples.deep_view() == old(self).tuples.deep_view().push(t@),
            !added ==> *final(self) == *old(self),
    {
        if self.contains_tuple(&t) {
            return false;
        }
        proof {
            lemma_tuples_deep_view(self.tuples);
        }
        let ghost old_tuples = self.tuples;
        self.tuples.push(t);
        proof {
            lemma_tuples_deep_view(self.tuples);
            assert(self.tuples.deep_view() =~= old_tuples.deep_view().push(t@));
        }
        true
    }
}

/// Inserts a tuple into the relation at `q`, leaving every other relation
/// untouched.
#[verifier::loop_isolation(false)]
fn db_insert(db: &mut Vec<Relation>, q: usize, t: Vec<usize>) -> (added: bool)
    requires
        q < old(db)@.len(),
        rel_inv(old(db)@[q as int]),
        t@.len() == old(db)@[q as int].arity,
        forall|k: int| 0 <= k < t@.len() ==> t@[k] < old(db)@[q as int].domain,
    ensures
        final(db)@.len() == old(db)@.len(),
        forall|x: int| 0 <= x < old(db)@.len() && x != q ==> final(db)@[x] == old(db)@[x],
        final(db)@[q as int].arity == old(db)@[q as int].arity,
        final(db)@[q as int].domain == old(db)@[q as int].domain,
        rel_inv(final(db)@[q as int]),
        added == !rel_contains(old(db)@[q as int], t@),
        added ==> final(db)@[q as int].tuples.deep_view() == old(db)@[
            q as int
        ].tuples.deep_view().push(t@),
        added ==> final(db)@[q as int].tuples@.len() == old(db)@[q as int].tuples@.len() + 1,
        !added ==> final(db)@[q as int] == old(db)@[q as int],
{
    let mut rel = db.remove(q);
    let added = rel.insert_tuple(t);
    let ghost relg = rel;
    db.insert(q, rel);
    proof {
        assert(db@[q as int] == relg);
        lemma_tuples_deep_view(relg.tuples);
        lemma_tuples_deep_view(old(db)@[q as int].tuples);
        if added {
            assert(relg.tuples.deep_view().len() == old(db)@[q as int].tuples.deep_view().len()
                + 1);
        }
        assert forall|x: int| 0 <= x < old(db)@.len() && x != q implies final(db)@[x] == old(
            db,
        )@[x] by {
            if x < q {
            } else {
                assert(final(db)@[x] == old(db)@.remove(q as int).insert(q as int, rel)[x]);
            }
        }
    }
    added
}

/// Every relation is internally consistent and ranges over domain `d`.
pub open spec fn db_rels_ok(db: Seq<Relation>, d: nat) -> bool {
    forall|q: int| 0 <= q < db.len() ==> rel_inv(#[trigger] db[q]) && db[q].domain == d
}

/// The delta relations mirror the database's layout.
pub open spec fn delta_ok(delta: Seq<Relation>, db: Seq<Relation>) -> bool {
    &&& delta.len() == db.len()
    &&& forall|q: int| 0 <= q < delta.len() ==> (#[trigger] delta[q]).arity == db[q].arity
}

/// `new` keeps every relation's layout and every tuple of `prev`.
pub open spec fn db_extends(new: Seq<Relation>, prev: Seq<Relation>) -> bool {
    &&& new.len() == prev.len()
    &&& forall|q: int|
        0 <= q < new.len() ==> (#[trigger] new[q]).arity == prev[q].arity && new[q].domain
            == prev[q].domain
    &&& forall|q: int, t: Seq<usize>|
        0 <= q < new.len() && #[trigger] rel_contains(prev[q], t) ==> rel_contains(new[q], t)
}

/// Every tuple of `sub`'s relations also stands in `sup`'s.
pub open spec fn db_subset(sub: Seq<Relation>, sup: Seq<Relation>) -> bool {
    &&& sub.len() == sup.len()
    &&& forall|q: int, t: Seq<usize>|
        0 <= q < sub.len() && #[trigger] rel_contains(sub[q], t) ==> rel_contains(sup[q], t)
}

/// Extension is transitive.
pub proof fn lemma_db_extends_trans(a: Seq<Relation>, b: Seq<Relation>, c: Seq<Relation>)
    requires
        db_extends(b, a),
        db_extends(c, b),
    ensures
        db_extends(c, a),
{
    assert forall|q: int, t: Seq<usize>|
        0 <= q < c.len() && #[trigger] rel_contains(a[q], t) implies rel_contains(c[q], t) by {
        assert(rel_contains(b[q], t));
    }
}

/// The substitution invariant: one slot per rule variable, bound values
/// below the domain.
pub open spec fn sub_inv(s: Seq<Option<usize>>, nv: usize, d: nat) -> bool {
    &&& s.len() == nv
    &&& forall|v: int| 0 <= v < s.len() && (#[trigger] s[v]) is Some ==> s[v]->Some_0 < d
}

/// Every constant of the atom lies below the domain.
pub open spec fn atom_dom_ok(a: RuleAtom, d: nat) -> bool {
    forall|k: int|
        0 <= k < a.terms@.len() && (#[trigger] a.terms@[k]) is Const ==> a.terms@[k]->Const_0 < d
}

/// What rule evaluation needs of the rule and the relations it reads.
pub open spec fn eval_pre(rule: Rule, db: Seq<Relation>, delta: Seq<Relation>, d: nat) -> bool {
    &&& db_rels_ok(db, d)
    &&& db_rels_ok(delta, d)
    &&& delta_ok(delta, db)
    &&& rule.head.pred < db.len()
    &&& db[rule.head.pred as int].arity == rule.head.terms@.len()
    &&& atom_vars_ok(rule.head, rule.num_vars)
    &&& atom_dom_ok(rule.head, d)
    &&& forall|j: int|
        0 <= j < rule.body@.len() ==> {
            let a = (#[trigger] rule.body@[j]).atom;
            &&& a.pred < db.len()
            &&& db[a.pred as int].arity == a.terms@.len()
            &&& atom_vars_ok(a, rule.num_vars)
            &&& atom_dom_ok(a, d)
        }
}

/// The database as one tuple set per predicate, the shape the satisfaction
/// semantics of `model` speaks of.
pub open spec fn db_sets(db: Seq<Relation>) -> Seq<Set<Seq<usize>>> {
    db.map_values(|r: Relation| r.tuples.deep_view().to_set())
}

/// The database is closed under every rule of the program: whatever a rule
/// derives from it is already present.
pub open spec fn db_closed(p: &Program, db: Seq<Relation>) -> bool {
    forall|i: int, t: Seq<usize>|
        0 <= i < p.rules@.len() && #[trigger] crate::model::rule_derives(
            p.rules@[i],
            db_sets(db),
            t,
        ) ==> rel_contains(db[p.rules@[i].head.pred as int], t)
}

/// A total assignment (one constant per variable index) agrees with every
/// binding of a partial substitution.
pub open spec fn asg_extends(asg: Seq<usize>, s: Seq<Option<usize>>) -> bool {
    forall|v: int| 0 <= v < s.len() && (#[trigger] s[v]) is Some ==> asg[v] == s[v]->Some_0
}

/// The ground tuple an atom denotes under a total assignment.
pub open spec fn image_of(a: RuleAtom, asg: Seq<usize>) -> Seq<usize> {
    Seq::new(
        a.terms@.len(),
        |k: int|
            match a.terms@[k] {
                Term::Const(c) => c,
                Term::Var(v) => asg[v as int],
            },
    )
}

/// Every variable of the atom is bound by the substitution.
pub open spec fn atom_bound(a: RuleAtom, s: Seq<Option<usize>>) -> bool {
    forall|k: int|
        0 <= k < a.terms@.len() && (#[trigger] a.terms@[k]) is Var ==> s[a.terms@[k]->Var_0 as int]
            is Some
}

/// An assignment satisfies the body literals from `pos` on: the remaining
/// positive atoms' images stand in the database and every negated atom's
/// image does not.
pub open spec fn asg_open(rule: Rule, pos: int, db: Seq<Relation>, asg: Seq<usize>) -> bool {
    &&& forall|j: int|
        pos <= j < rule.body@.len() && (#[trigger] rule.body@[j]).positive ==> rel_contains(
            db[rule.body@[j].atom.pred as int],
            image_of(rule.body@[j].atom, asg),
        )
    &&& forall|j: int|
        0 <= j < rule.body@.len() && !(#[trigger] rule.body@[j]).positive ==> !rel_contains(
            db[rule.body@[j].atom.pred as int],
            image_of(rule.body@[j].atom, asg),
        )
}

/// Some derived tuple of the list equals `t`.
pub open spec fn acc_hits(acc: Seq<Vec<usize>>, t: Seq<usize>) -> bool {
    exists|x: int| 0 <= x < acc.len() && acc[x]@ == t
}

/// A satisfying assignment of the declarative semantics opens the whole rule
/// body, and the image notions agree.
proof fn lemma_derives_to_asg(rule: Rule, db: Seq<Relation>, m: Map<usize, usize>)
    requires
        atom_vars_ok(rule.head, rule.num_vars),
        forall|j: int|
            0 <= j < rule.body@.len() ==> atom_vars_ok((#[trigger] rule.body@[j]).atom, rule.num_vars),
        crate::model::rule_body_sat(rule, db_sets(db), m),
        forall|j: int|
            0 <= j < rule.body@.len() ==> (#[trigger] rule.body@[j]).atom.pred < db.len(),
    ensures
        ({
            let asg = Seq::new(rule.num_vars as nat, |v: int| m[v as usize]);
            asg_open(rule, 0, db, asg) && image_of(rule.head, asg) == crate::model::atom_image(
                rule.head,
                m,
            )
        }),
{
    let asg = Seq::new(rule.num_vars as nat, |v: int| m[v as usize]);
    assert forall|j: int| 0 <= j < rule.body@.len() implies image_of(
        (#[trigger] rule.body@[j]).atom,
        asg,
    ) == crate::model::atom_image(rule.body@[j].atom, m) by {
        let a = rule.body@[j].atom;
        assert(image_of(a, asg) =~= crate::model::atom_image(a, m));
    }
    assert forall|j: int|
        0 <= j < rule.body@.len() && (#[trigger] rule.body@[j]).positive implies rel_contains(
        db[rule.body@[j].atom.pred as int],
        image_of(rule.body@[j].atom, asg),
    ) by {
        assert(crate::model::lit_sat(rule.body@[j], db_sets(db), m));
        assert(db_sets(db)[rule.body@[j].atom.pred as int]
            == db[rule.body@[j].atom.pred as int].tuples.deep_view().to_set());
    }
    assert forall|j: int|
        0 <= j < rule.body@.len() && !(#[trigger] rule.body@[j]).positive implies !rel_contains(
        db[rule.body@[j].atom.pred as int],
        image_of(rule.body@[j].atom, asg),
    ) by {
        assert(crate::model::lit_sat(rule.body@[j], db_sets(db), m));
        assert(db_sets(db)[rule.body@[j].atom.pred as int]
            == db[rule.body@[j].atom.pred as int].tuples.deep_view().to_set());
    }
    assert(image_of(rule.head, asg) =~= crate::model::atom_image(rule.head, m));
}

/// A fresh substitution with every variable unbound.
#[verifier::loop_isolation(false)]
fn new_sub(nv: usize, Ghost(d): Ghost<nat>) -> (r: Vec<Option<usize>>)
    ensures
        sub_inv(r@, nv, d),
        forall|v: int| 0 <= v < r@.len() ==> (#[trigger] r@[v]) is None,
{
    let mut r: Vec<Option<usize>> = Vec::new();
    while r.len() < nv
        invariant
            r@.len() <= nv,
            forall|v: int| 0 <= v < r@.len() ==> (#[trigger] r@[v]) is None,
        decreases nv - r@.len(),
    {
        r.push(None);
    }
    r
}

/// Copies a substitution.
#[verifier::loop_isolation(false)]
fn copy_sub(s: &Vec<Option<usize>>) -> (r: Vec<Option<usize>>)
    ensures
        r@ == s@,
{
    let mut r: Vec<Option<usize>> = Vec::new();
    let mut i: usize = 0;
    while i < s.len()
        invariant
            i <= s@.len(),
            r@ =~= s@.take(i as int),
        decreases s@.len() - i,
    {
        r.push(s[i]);
        i += 1;
    }
    proof {
        assert(s@.take(s@.len() as int) =~= s@);
    }
    r
}

/// Extends the substitution so that the atom matches the tuple, if it can.
#[verifier::loop_isolation(false)]
fn unify_atom(
    a: &RuleAtom,
    tuple: &Vec<usize>,
    sub: &Vec<Option<usize>>,
    nv: usize,
    Ghost(d): Ghost<nat>,
) -> (r: Option<Vec<Option<usize>>>)
    requires
        sub_inv(sub@, nv, d),
        atom_vars_ok(*a, nv),
        tuple@.len() == a.terms@.len(),
        forall|k: int| 0 <= k < tuple@.len() ==> tuple@[k] < d,
    ensures
        match r {
            Some(s2) => {
                &&& sub_inv(s2@, nv, d)
                &&& forall|v: int|
                    0 <= v < sub@.len() && (#[trigger] sub@[v]) is Some ==> s2@[v] == sub@[v]
                &&& atom_bound(*a, s2@)
                &&& forall|asg: Seq<usize>|
                    asg_extends(asg, sub@) && image_of(*a, asg) == tuple@ ==> #[trigger] asg_extends(
                        asg,
                        s2@,
                    )
            },
            None => forall|asg: Seq<usize>|
                !(#[trigger] asg_extends(asg, sub@) && image_of(*a, asg) == tuple@),
        },
{
    let mut cur = copy_sub(sub);
    let mut k: usize = 0;
    while k < a.terms.len()
        invariant
            k <= a.terms@.len(),
            sub_inv(cur@, nv, d),
            forall|v: int| 0 <= v < sub@.len() && (#[trigger] sub@[v]) is Some ==> cur@[v] == sub@[v],
            forall|m: int|
                0 <= m < k ==> match #[trigger] a.terms@[m] {
                    Term::Const(c) => c == tuple@[m],
                    Term::Var(v) => cur@[v as int] == Some(tuple@[m]),
                },
            forall|asg: Seq<usize>|
                asg_extends(asg, sub@) && image_of(*a, asg) == tuple@ ==> #[trigger] asg_extends(
                    asg,
                    cur@,
                ),
        decreases a.terms@.len() - k,
    {
        match a.terms[k] {
            Term::Const(c) => {
                if tuple[k] != c {
                    proof {
                        assert forall|asg: Seq<usize>|
                            !(#[trigger] asg_extends(asg, sub@) && image_of(*a, asg)
                                == tuple@) by {
                            if asg_extends(asg, sub@) && image_of(*a, asg) == tuple@ {
                                assert(image_of(*a, asg)[k as int] == c);
                            }
                        }
                    }
                    return None;
                }
            },
            Term::Var(v) => {
                match cur[v] {
                    Some(x) => {
                        if x != tuple[k] {
                            proof {
                                assert forall|asg: Seq<usize>|
                                    !(#[trigger] asg_extends(asg, sub@) && image_of(*a, asg)
                                        == tuple@) by {
                                    if asg_extends(asg, sub@) && image_of(*a, asg) == tuple@ {
                                        assert(asg_extends(asg, cur@));
                                        assert(asg[v as int] == x);
                                        assert(image_of(*a, asg)[k as int] == asg[v as int]);
                                    }
                                }
                            }
                            return None;
                        }
                    },
                    None => {
                        let val = tuple[k];
                        let ghost cur0 = cur@;
                        cur.set(v, Some(val));
                        proof {
                            assert forall|asg: Seq<usize>|
                                asg_extends(asg, sub@) && image_of(*a, asg)
                                    == tuple@ implies #[trigger] asg_extends(asg, cur@) by {
                                assert(asg_extends(asg, cur0));
                                assert(image_of(*a, asg)[k as int] == asg[v as int]);
                                assert forall|w: int|
                                    0 <= w < cur@.len() && (#[trigger] cur@[w])
                                        is Some implies asg[w] == cur@[w]->Some_0 by {
                                    if w != v as int {
                                        assert(cur0[w] == cur@[w]);
                                    }
                                }
                            }
                        }
                    },
                }
            },
        }
        k += 1;
    }
    proof {
        assert forall|m: int|
            0 <= m < a.terms@.len() && (#[trigger] a.terms@[m]) is Var implies cur@[a.terms@[m]->Var_0 as int]
            is Some by {
            assert(cur@[a.terms@[m]->Var_0 as int] == Some(tuple@[m]));
        }
    }
    Some(cur)
}

/// Grounds the atom under the substitution: the tuple it denotes, or `None`
/// if some of its variables are unbound.
#[verifier::loop_isolation(false)]
fn ground_atom(a: &RuleAtom, sub: &Vec<Option<usize>>, nv: usize, Ghost(d): Ghost<nat>) -> (r:
    Option<Vec<usize>>)
    requires
        sub_inv(sub@, nv, d),
        atom_vars_ok(*a, nv),
        atom_dom_ok(*a, d),
    ensures
        match r {
            Some(t) => {
                &&& t@.len() == a.terms@.len()
                &&& forall|k: int| 0 <= k < t@.len() ==> t@[k] < d
                &&& atom_bound(*a, sub@)
                &&& forall|asg: Seq<usize>|
                    #[trigger] asg_extends(asg, sub@) ==> image_of(*a, asg) == t@
            },
            None => !atom_bound(*a, sub@),
        },
{
    let mut t: Vec<usize> = Vec::new();
    let mut k: usize = 0;
    while k < a.terms.len()
        invariant
            k <= a.terms@.len(),
            t@.len() == k,
            forall|m: int| 0 <= m < k ==> t@[m] < d,
            forall|m: int|
                0 <= m < k ==> match #[trigger] a.terms@[m] {
                    Term::Const(c) => t@[m] == c,
                    Term::Var(v) => sub@[v as int] is Some && t@[m] == sub@[v as int]->Some_0,
                },
        decreases a.terms@.len() - k,
    {
        match a.terms[k] {
            Term::Const(c) => {
                t.push(c);
            },
            Term::Var(v) => {
                match sub[v] {
                    Some(x) => {
                        t.push(x);
                    },
                    None => {
                        proof {
                            assert(a.terms@[k as int] is Var);
                            assert(!atom_bound(*a, sub@));
                        }
                        return None;
                    },
                }
            },
        }
        k += 1;
    }
    proof {
        assert forall|m: int|
            0 <= m < a.terms@.len() && (#[trigger] a.terms@[m]) is Var implies sub@[a.terms@[m]->Var_0 as int]
            is Some by {}
        assert forall|asg: Seq<usize>| #[trigger] asg_extends(asg, sub@) implies image_of(*a, asg)
            == t@ by {
            assert forall|m: int| 0 <= m < a.terms@.len() implies image_of(*a, asg)[m]
                == t@[m] by {
                match a.terms@[m] {
                    Term::Const(c) => {},
                    Term::Var(v) => {
                        assert(sub@[v as int] is Some);
                        assert(asg[v as int] == sub@[v as int]->Some_0);
                    },
                }
            }
            assert(image_of(*a, asg) =~= t@);
        }
    }
    Some(t)
}

/// Evaluates the rule body from literal `pos` on, under the substitution so
/// far, and appends every derived head tuple to `acc`.  When `delta_pos`
/// names a body position, that literal only reads the delta relation, so the
/// round re-derives only what uses at least one newly derived tuple.
#[verifier::loop_isolation(false)]
fn eval_rule_from(
    rule: &Rule,
    pos: usize,
    sub: Vec<Option<usize>>,
    db: &Vec<Relation>,
    delta: &Vec<Relation>,
    delta_pos: Option<usize>,
    acc: &mut Vec<Vec<usize>>,
    Ghost(d): Ghost<nat>,
)
    requires
        eval_pre(*rule, db@, delta@, d),
        crate::model::rule_safe(*rule),
        sub_inv(sub@, rule.num_vars, d),
        pos <= rule.body@.len(),
        forall|j: int|
            0 <= j < pos && (#[trigger] rule.body@[j]).positive ==> atom_bound(
                rule.body@[j].atom,
                sub@,
            ),
    ensures
        final(acc)@.len() >= old(acc)@.len(),
        forall|x: int| 0 <= x < old(acc)@.len() ==> final(acc)@[x] == old(acc)@[x],
        forall|x: int|
            old(acc)@.len() <= x < final(acc)@.len() ==> (#[trigger] final(acc)@[x])@.len()
                == rule.head.terms@.len() && forall|k: int|
                0 <= k < rule.head.terms@.len() ==> #[trigger] final(acc)@[x]@[k] < d,
        delta_pos is None ==> forall|asg: Seq<usize>|
            asg_extends(asg, sub@) && asg_open(*rule, pos as int, db@, asg)
                ==> #[trigger] acc_hits(final(acc)@, image_of(rule.head, asg)),
    decreases rule.body@.len() - pos,
{
    if pos == rule.body.len() {
        let mut j: usize = 0;
        while j < rule.body.len()
            invariant
                j <= rule.body@.len(),
            decreases rule.body@.len() - j,
        {
            if !rule.body[j].positive {
                proof {
                    lemma_safe_atom_bound(rule, &sub, j as int);
                }
                match ground_atom(&rule.body[j].atom, &sub, rule.num_vars, Ghost(d)) {
                    Some(t) => {
                        if db[rule.body[j].atom.pred].contains_tuple(&t) {
                            proof {
                                if delta_pos is None {
                                    assert forall|asg: Seq<usize>|
                                        !(asg_extends(asg, sub@) && asg_open(
                                            *rule,
                                            pos as int,
                                            db@,
                                            asg,
                                        )) by {
                                        if asg_extends(asg, sub@) && asg_open(
                                            *rule,
                                            pos as int,
                                            db@,
                                            asg,
                                        ) {
                                            assert(image_of(rule.body@[j as int].atom, asg)
                                                == t@);
                                            assert(!rel_contains(
                                                db@[rule.body@[j as int].atom.pred as int],
                                                image_of(rule.body@[j as int].atom, asg),
                                            ));
                                        }
                                    }
                                }
                            }
                            return ;
                        }
                    },
                    None => {
                        proof {
                            assert(false);
                        }
                        return ;
                    },
                }
            }
            j += 1;
        }
        proof {
            lemma_safe_head_bound(rule, &sub);
        }
        match ground_atom(&rule.head, &sub, rule.num_vars, Ghost(d)) {
            Some(t) => {
                let ghost tg = t@;
                acc.push(t);
                proof {
                    if delta_pos is None {
                        assert forall|asg: Seq<usize>|
                            asg_extends(asg, sub@) && asg_open(
                                *rule,
                                pos as int,
                                db@,
                                asg,
                            ) implies #[trigger] acc_hits(acc@, image_of(rule.head, asg)) by {
                            assert(image_of(rule.head, asg) == tg);
                            assert(acc@[acc@.len() - 1]@ == tg);
                        }
                    }
                }
            },
            None => {
                proof {
                    assert(false);
                }
            },
        }
    } else {
        let lit = &rule.body[pos];
        if lit.positive {
            let use_delta = match delta_pos {
                Some(dp) => dp == pos,
                None => false,
            };
            let rel = if use_delta {
                &delta[lit.atom.pred]
            } else {
                &db[lit.atom.pred]
            };
            let mut i: usize = 0;
            while i < rel.tuples.len()
                invariant
                    i <= rel.tuples@.len(),
                    rel == if use_delta {
                        &delta@[lit.atom.pred as int]
                    } else {
                        &db@[lit.atom.pred as int]
                    },
                    acc@.len() >= old(acc)@.len(),
                    forall|x: int| 0 <= x < old(acc)@.len() ==> acc@[x] == old(acc)@[x],
                    forall|x: int|
                        old(acc)@.len() <= x < acc@.len() ==> (#[trigger] acc@[x])@.len()
                            == rule.head.terms@.len() && forall|k: int|
                            0 <= k < rule.head.terms@.len() ==> #[trigger] acc@[x]@[k] < d,
                    delta_pos is None ==> forall|asg: Seq<usize>|
                        asg_extends(asg, sub@) && asg_open(*rule, pos as int, db@, asg) && (
                        exists|m: int|
                            0 <= m < i && db@[lit.atom.pred as int].tuples.deep_view()[m]
                                == image_of(lit.atom, asg)) ==> #[trigger] acc_hits(
                            acc@,
                            image_of(rule.head, asg),
                        ),
                decreases rel.tuples@.len() - i,
            {
                let ghost acc_iter0 = acc@;
                let ures = unify_atom(&lit.atom, &rel.tuples[i], &sub, rule.num_vars, Ghost(d));
                let ghost ures_g = ures;
                match ures {
                    Some(sub2) => {
                        proof {
                            assert forall|j: int|
                                0 <= j < pos + 1 && (#[trigger] rule.body@[j]).positive implies atom_bound(
                                rule.body@[j].atom,
                                sub2@,
                            ) by {
                                if j < pos {
                                    assert(atom_bound(rule.body@[j].atom, sub@));
                                    assert forall|k: int|
                                        0 <= k < rule.body@[j].atom.terms@.len() && (
                                        #[trigger] rule.body@[j].atom.terms@[k])
                                            is Var implies sub2@[rule.body@[j].atom.terms@[k]->Var_0 as int]
                                        is Some by {
                                        let v = rule.body@[j].atom.terms@[k]->Var_0;
                                        assert(sub@[v as int] is Some);
                                        assert(sub2@[v as int] == sub@[v as int]);
                                    }
                                }
                            }
                        }
                        eval_rule_from(rule, pos + 1, sub2, db, delta, delta_pos, acc, Ghost(d));
                    },
                    None => {},
                }
                proof {
                    if delta_pos is None {
                        lemma_tuples_deep_view(db@[lit.atom.pred as int].tuples);
                        assert forall|asg: Seq<usize>|
                            asg_extends(asg, sub@) && asg_open(*rule, pos as int, db@, asg) && (
                            exists|m: int|
                                0 <= m < i + 1 && db@[lit.atom.pred as int].tuples.deep_view()[m]
                                    == image_of(lit.atom, asg)) implies #[trigger] acc_hits(
                            acc@,
                            image_of(rule.head, asg),
                        ) by {
                            let m = choose|m: int|
                                0 <= m < i + 1 && db@[lit.atom.pred as int].tuples.deep_view()[m]
                                    == image_of(lit.atom, asg);
                            if m < i {
                                assert(acc_hits(acc_iter0, image_of(rule.head, asg)));
                                lemma_acc_hits_extend(acc_iter0, acc@, image_of(rule.head, asg));
                            } else {
                                assert(image_of(lit.atom, asg) == rel.tuples@[i as int]@);
                                match ures_g {
                                    Some(sub2g) => {
                                        assert(asg_extends(asg, sub2g@));
                                        assert(asg_open(*rule, pos + 1, db@, asg));
                                        assert(acc_hits(acc@, image_of(rule.head, asg)));
                                    },
                                    None => {
                                        assert(false);
                                    },
                                }
                            }
                        }
                    }
                }
                i += 1;
            }
            proof {
                if delta_pos is None {
                    lemma_tuples_deep_view(db@[lit.atom.pred as int].tuples);
                    assert forall|asg: Seq<usize>|
                        asg_extends(asg, sub@) && asg_open(
                            *rule,
                            pos as int,
                            db@,
                            asg,
                        ) implies #[trigger] acc_hits(acc@, image_of(rule.head, asg)) by {
                        assert(rel_contains(
                            db@[lit.atom.pred as int],
                            image_of(lit.atom, asg),
                        ));
                        let dvv = db@[lit.atom.pred as int].tuples.deep_view();
                        let m = choose|m: int|
                            0 <= m < dvv.len() && dvv[m] == image_of(lit.atom, asg);
                    }
                }
            }
        } else {
            eval_rule_from(rule, pos + 1, sub, db, delta, delta_pos, acc, Ghost(d));
            proof {
                if delta_pos is None {
                    assert forall|asg: Seq<usize>|
                        asg_extends(asg, sub@) && asg_open(
                            *rule,
                            pos as int,
                            db@,
                            asg,
                        ) implies #[trigger] acc_hits(acc@, image_of(rule.head, asg)) by {
                        assert(asg_open(*rule, pos + 1, db@, asg));
                    }
                }
            }
        }
    }
}

/// A derived-tuple hit survives extension of the list.
proof fn lemma_acc_hits_extend(a1: Seq<Vec<usize>>, a2: Seq<Vec<usize>>, t: Seq<usize>)
    requires
        a1.len() <= a2.len(),
        forall|x: int| 0 <= x < a1.len() ==> a2[x] == a1[x],
        acc_hits(a1, t),
    ensures
        acc_hits(a2, t),
{
    let x = choose|x: int| 0 <= x < a1.len() && a1[x]@ == t;
    assert(a2[x]@ == t);
}

/// Under range restriction, once every positive body atom is bound, so is
/// every negated atom.
proof fn lemma_safe_atom_bound(rule: &Rule, sub: &Vec<Option<usize>>, j: int)
    requires
        crate::model::rule_safe(*rule),
        0 <= j < rule.body@.len(),
        !rule.body@[j].positive,
        forall|j2: int|
            0 <= j2 < rule.body@.len() && (#[trigger] rule.body@[j2]).positive ==> atom_bound(
                rule.body@[j2].atom,
                sub@,
            ),
        forall|j2: int|
            0 <= j2 < rule.body@.len() ==> atom_vars_ok((#[trigger] rule.body@[j2]).atom, rule.num_vars),
        sub@.len() == rule.num_vars,
    ensures
        atom_bound(rule.body@[j].atom, sub@),
{
    let aj = rule.body@[j].atom;
    assert forall|k: int|
        0 <= k < aj.terms@.len() && (#[trigger] aj.terms@[k]) is Var implies sub@[aj.terms@[k]->Var_0 as int]
        is Some by {
        let v = aj.terms@[k]->Var_0;
        assert(crate::model::var_in_positive_body(*rule, v));
        let j2 = choose|j2: int|
            0 <= j2 < rule.body@.len() && (#[trigger] rule.body@[j2]).positive
                && crate::model::atom_has_var(rule.body@[j2].atom, v);
        let k2 = choose|k2: int|
            0 <= k2 < rule.body@[j2].atom.terms@.len() && rule.body@[j2].atom.terms@[k2]
                == Term::Var(v);
        assert(atom_bound(rule.body@[j2].atom, sub@));
        assert(rule.body@[j2].atom.terms@[k2] is Var);
    }
}

/// Under range restriction, once every positive body atom is bound, so is
/// the head.
proof fn lemma_safe_head_bound(rule: &Rule, sub: &Vec<Option<usize>>)
    requires
        crate::model::rule_safe(*rule),
        forall|j2: int|
            0 <= j2 < rule.body@.len() && (#[trigger] rule.body@[j2]).positive ==> atom_bound(
                rule.body@[j2].atom,
                sub@,
            ),
        forall|j2: int|
            0 <= j2 < rule.body@.len() ==> atom_vars_ok((#[trigger] rule.body@[j2]).atom, rule.num_vars),
        sub@.len() == rule.num_vars,
    ensures
        atom_bound(rule.head, sub@),
{
    assert forall|k: int|
        0 <= k < rule.head.terms@.len() && (#[trigger] rule.head.terms@[k])
            is Var implies sub@[rule.head.terms@[k]->Var_0 as int] is Some by {
        let v = rule.head.terms@[k]->Var_0;
        assert(crate::model::var_in_positive_body(*rule, v));
        let j2 = choose|j2: int|
            0 <= j2 < rule.body@.len() && (#[trigger] rule.body@[j2]).positive
                && crate::model::atom_has_var(rule.body@[j2].atom, v);
        let k2 = choose|k2: int|
            0 <= k2 < rule.body@[j2].atom.terms@.len() && rule.body@[j2].atom.terms@[k2]
                == Term::Var(v);
        assert(atom_bound(rule.body@[j2].atom, sub@));
        assert(rule.body@[j2].atom.terms@[k2] is Var);
    }
}

/// Decides whether predicate `q` heads any rule.
#[verifier::loop_isolation(false)]
fn check_is_idb(p: &Program, q: usize) -> (r: bool)
    ensures
        r == is_idb(p, q),
{
    let mut i: usize = 0;
    while i < p.rules.len()
        invariant
            i <= p.rules@.len(),
            forall|m: int| 0 <= m < i ==> (#[trigger] p.rules@[m]).head.pred != q,
        decreases p.rules@.len() - i,
    {
        if p.rules[i].head.pred == q {
            return true;
        }
        i += 1;
    }
    false
}

/// The deep view of a dictionary indexes to the views of its entries.
pub proof fn lemma_dict_deep_view(v: Vec<Vec<u8>>)
    ensures
        v.deep_view().len() == v@.len(),
        forall|i: int| 0 <= i < v@.len() ==> #[trigger] v.deep_view()[i] == v@[i]@,
{
    assert forall|i: int| 0 <= i < v@.len() implies #[trigger] v.deep_view()[i] == v@[i]@ by {
        assert(v.deep_view()[i] =~= v@[i]@);
    }
}

/// Copies a dictionary.
#[verifier::loop_isolation(false)]
fn copy_dict(v: &Vec<Vec<u8>>) -> (r: Vec<Vec<u8>>)
    ensures
        r@.len() == v@.len(),
        r.deep_view() == v.deep_view(),
{
    let mut r: Vec<Vec<u8>> = Vec::new();
    let mut i: usize = 0;
    while i < v.len()
        invariant
            i <= v@.len(),
            r@.len() == i,
            forall|m: int| 0 <= m < i ==> #[trigger] r@[m]@ == v@[m]@,
        decreases v@.len() - i,
    {
        let mut b: Vec<u8> = Vec::new();
        let src = &v[i];
        let mut k: usize = 0;
        while k < src.len()
            invariant
                k <= src@.len(),
                b@ =~= src@.take(k as int),
            decreases src@.len() - k,
        {
            b.push(src[k]);
            k += 1;
        }
        proof {
            assert(b@ =~= src@);
        }
        r.push(b);
        i += 1;
    }
    proof {
        lemma_dict_deep_view(r);
        lemma_dict_deep_view(*v);
        assert(r.deep_view() =~= v.deep_view());
    }
    r
}

/// A rule of a validated program can be evaluated against aligned relations.
proof fn lemma_rule_eval_pre(
    p: &Program,
    rule: Rule,
    db: Seq<Relation>,
    delta: Seq<Relation>,
    d: nat,
)
    requires
        rule_wf(p, rule),
        d == p.constants@.len(),
        db.len() == p.preds@.len(),
        forall|q: int|
            0 <= q < db.len() ==> (#[trigger] db[q]).arity == p.preds@[q].arity && rel_inv(db[q])
                && db[q].domain == d,
        db_rels_ok(delta, d),
        delta_ok(delta, db),
    ensures
        eval_pre(rule, db, delta, d),
{
    assert forall|k: int|
        0 <= k < rule.head.terms@.len() && (#[trigger] rule.head.terms@[k]) is Const implies rule.head.terms@[k]->Const_0
        < d by {
        assert(crate::model::term_wf(p, rule.head.terms@[k]));
    }
    assert forall|j: int| 0 <= j < rule.body@.len() implies {
        let a = (#[trigger] rule.body@[j]).atom;
        &&& a.pred < db.len()
        &&& db[a.pred as int].arity == a.terms@.len()
        &&& atom_vars_ok(a, rule.num_vars)
        &&& atom_dom_ok(a, d)
    } by {
        let a = rule.body@[j].atom;
        assert(crate::model::atom_wf(p, a));
        assert forall|k: int|
            0 <= k < a.terms@.len() && (#[trigger] a.terms@[k]) is Const implies a.terms@[k]->Const_0
            < d by {
            assert(crate::model::term_wf(p, a.terms@[k]));
        }
    }
}

/// A database extension keeps every base fact.
proof fn lemma_facts_preserved(p: &Program, prev: Seq<Relation>, new: Seq<Relation>)
    requires
        db_extends(new, prev),
        schema_ok(p),
        prev.len() == p.preds@.len(),
        forall|i: int|
            0 <= i < p.facts@.len() ==> rel_contains(
                prev[(#[trigger] p.facts@[i]).pred as int],
                p.facts@[i].args@,
            ),
    ensures
        forall|i: int|
            0 <= i < p.facts@.len() ==> rel_contains(
                new[(#[trigger] p.facts@[i]).pred as int],
                p.facts@[i].args@,
            ),
{
    assert forall|i: int|
        0 <= i < p.facts@.len() implies rel_contains(
        new[(#[trigger] p.facts@[i]).pred as int],
        p.facts@[i].args@,
    ) by {
        assert(fact_wf(p, p.facts@[i]));
        assert(rel_contains(prev[p.facts@[i].pred as int], p.facts@[i].args@));
    }
}

/// Moves every tuple of `acc` into relation `hp` of the database, and those
/// that were new also into the same relation of `aux`.
#[verifier::loop_isolation(false)]
fn drain_acc(
    db: &mut Vec<Relation>,
    aux: &mut Vec<Relation>,
    hp: usize,
    acc: &mut Vec<Vec<usize>>,
    Ghost(d): Ghost<nat>,
)
    requires
        db_rels_ok(old(db)@, d),
        db_rels_ok(old(aux)@, d),
        delta_ok(old(aux)@, old(db)@),
        db_subset(old(aux)@, old(db)@),
        hp < old(db)@.len(),
        forall|x: int|
            0 <= x < old(acc)@.len() ==> (#[trigger] old(acc)@[x])@.len() == old(db)@[
                hp as int
            ].arity && forall|k: int| 0 <= k < old(acc)@[x]@.len() ==> old(acc)@[x]@[k] < d,
    ensures
        db_rels_ok(final(db)@, d),
        db_rels_ok(final(aux)@, d),
        delta_ok(final(aux)@, final(db)@),
        db_extends(final(db)@, old(db)@),
        db_extends(final(aux)@, old(aux)@),
        db_subset(final(aux)@, final(db)@),
        forall|x: int| 0 <= x < old(db)@.len() && x != hp ==> final(db)@[x] == old(db)@[x],
        crate::bound::db_count(final(db)@) - crate::bound::db_count(old(db)@)
            == crate::bound::db_count(final(aux)@) - crate::bound::db_count(old(aux)@),
        crate::bound::db_count(final(db)@) >= crate::bound::db_count(old(db)@),
        forall|x: int|
            0 <= x < old(acc)@.len() ==> rel_contains(
                final(db)@[hp as int],
                (#[trigger] old(acc)@[x])@,
            ),
        crate::bound::db_count(final(aux)@) == crate::bound::db_count(old(aux)@) ==> final(db)@
            == old(db)@,
{
    let ghost db0 = db@;
    let ghost aux0 = aux@;
    loop
        invariant
            db_rels_ok(db@, d),
            db_rels_ok(aux@, d),
            delta_ok(aux@, db@),
            hp < db@.len(),
            db_extends(db@, db0),
            db_extends(aux@, aux0),
            db_subset(aux@, db@),
            forall|x: int| 0 <= x < db0.len() && x != hp ==> db@[x] == db0[x],
            crate::bound::db_count(db@) - crate::bound::db_count(db0) == crate::bound::db_count(
                aux@,
            ) - crate::bound::db_count(aux0),
            crate::bound::db_count(db@) >= crate::bound::db_count(db0),
            forall|x: int|
                0 <= x < acc@.len() ==> (#[trigger] acc@[x])@.len() == db@[hp as int].arity
                    && forall|k: int| 0 <= k < acc@[x]@.len() ==> acc@[x]@[k] < d,
            acc@.len() <= old(acc)@.len(),
            forall|x: int| 0 <= x < acc@.len() ==> acc@[x] == old(acc)@[x],
            forall|x: int|
                acc@.len() <= x < old(acc)@.len() ==> rel_contains(
                    db@[hp as int],
                    (#[trigger] old(acc)@[x])@,
                ),
            crate::bound::db_count(aux@) == crate::bound::db_count(aux0) ==> db@ == db0,
        decreases acc@.len(),
    {
        match acc.pop() {
            None => {
                break ;
            },
            Some(t) => {
                let t2 = copy_tuple(&t);
                let ghost db_prev = db@;
                let ghost aux_prev = aux@;
                let ghost tv = t@;
                let added = db_insert(db, hp, t);
                proof {
                    crate::bound::lemma_db_count_update(db_prev, db@, hp as int);
                    if added {
                        assert(db@[hp as int].tuples.deep_view()[db_prev[
                            hp as int
                        ].tuples.deep_view().len() as int] == tv);
                    }
                    assert(rel_contains(db@[hp as int], tv));
                    assert forall|q: int, u: Seq<usize>|
                        0 <= q < db@.len() && #[trigger] rel_contains(db_prev[q], u) implies rel_contains(
                        db@[q],
                        u,
                    ) by {
                        if q == hp as int && !rel_contains(db_prev[q], tv) {
                            let dv = db_prev[q].tuples.deep_view();
                            let idx = choose|idx: int| 0 <= idx < dv.len() && dv[idx] == u;
                            assert(db@[q].tuples.deep_view()[idx] == u);
                        } else {
                            assert(db@[q] == db_prev[q]);
                        }
                    }
                    lemma_db_extends_trans(db0, db_prev, db@);
                }
                if added {
                    proof {
                        if rel_contains(aux_prev[hp as int], tv) {
                            assert(rel_contains(db_prev[hp as int], tv));
                        }
                        assert(!rel_contains(aux_prev[hp as int], tv));
                    }
                    db_insert(aux, hp, t2);
                    proof {
                        crate::bound::lemma_db_count_update(aux_prev, aux@, hp as int);
                        assert forall|q: int, u: Seq<usize>|
                            0 <= q < aux@.len() && #[trigger] rel_contains(aux_prev[q], u) implies rel_contains(
                            aux@[q],
                            u,
                        ) by {
                            if q == hp as int {
                                let dv = aux_prev[q].tuples.deep_view();
                                let idx = choose|idx: int| 0 <= idx < dv.len() && dv[idx] == u;
                                assert(aux@[q].tuples.deep_view()[idx] == u);
                            } else {
                                assert(aux@[q] == aux_prev[q]);
                            }
                        }
                        lemma_db_extends_trans(aux0, aux_prev, aux@);
                        assert forall|q: int, u: Seq<usize>|
                            0 <= q < aux@.len() && #[trigger] rel_contains(aux@[q], u) implies rel_contains(
                            db@[q],
                            u,
                        ) by {
                            if q == hp as int {
                                let dv = aux@[q].tuples.deep_view();
                                let pv = aux_prev[q].tuples.deep_view();
                                let idx = choose|idx: int| 0 <= idx < dv.len() && dv[idx] == u;
                                if idx < pv.len() {
                                    assert(rel_contains(aux_prev[q], u));
                                    assert(rel_contains(db_prev[q], u));
                                } else {
                                    assert(u == tv);
                                    assert(db@[q].tuples.deep_view()[db_prev[
                                        q
                                    ].tuples.deep_view().len() as int] == tv);
                                }
                            } else {
                                assert(rel_contains(aux_prev[q], u));
                                assert(rel_contains(db_prev[q], u));
                            }
                        }
                    }
                } else {
                    proof {
                        assert(db@ =~= db_prev);
                        assert forall|q: int, u: Seq<usize>|
                            0 <= q < aux@.len() && #[trigger] rel_contains(aux@[q], u) implies rel_contains(
                            db@[q],
                            u,
                        ) by {
                            assert(rel_contains(db_prev[q], u));
                        }
                    }
                }
            },
        }
    }
}

/// The lifecycle of an engine.
#[derive(Clone, Copy, Debug, PartialEq, Eq, Structural)]
pub enum EngineState {
    /// Validated and seeded with the base facts; not yet executed.
    Initialized,
    /// The fixpoint has been computed.
    Executed,
    /// The per-predicate result tables have been finalized.
    ResultsAvailable,
}

/// The execution engine: the program, its stratification, the derivation
/// state, and — once combined — the finalized result tables.
pub struct ExecutionEngine {
    /// The validated program.
    pub program: Program,
    /// The stratum of each predicate.
    pub strata: Vec<usize>,
    /// The working extension of each predicate.
    pub db: Vec<Relation>,
    /// Where the engine stands in its lifecycle.
    pub state: EngineState,
    /// The intensional predicates, ascending, once combined.
    pub idb: Vec<usize>,
    /// One finalized table per entry of `idb`.
    pub tables: Vec<TrieTable>,
}

impl ExecutionEngine {
    /// The structural part of the invariant: a validated program, a valid
    /// stratification, and aligned, well-formed relations that hold at least
    /// the base facts.
    pub open spec fn wf_core(self) -> bool {
        let n = self.program.preds@.len();
        let d = self.program.constants@.len();
        &&& schema_ok(&self.program)
        &&& rules_safe(&self.program)
        &&& strata_ok(&self.program, self.strata@)
        &&& forall|q: int| 0 <= q < n ==> #[trigger] self.strata@[q] <= n
        &&& self.db@.len() == n
        &&& forall|q: int|
            0 <= q < n ==> (#[trigger] self.db@[q]).arity == self.program.preds@[q].arity
                && self.db@[q].domain == d && rel_inv(self.db@[q])
        &&& forall|i: int|
            0 <= i < self.program.facts@.len() ==> rel_contains(
                self.db@[(#[trigger] self.program.facts@[i]).pred as int],
                self.program.facts@[i].args@,
            )
    }

    /// The result tables mirror the relations of the intensional predicates.
    pub open spec fn results_wf(self) -> bool {
        let n = self.program.preds@.len();
        let d = self.program.constants@.len();
        &&& forall|k1: int, k2: int| 0 <= k1 < k2 < self.idb@.len() ==> self.idb@[k1] < self.idb@[k2]
        &&& forall|q: usize| self.idb@.contains(q) <==> q < n && is_idb(&self.program, q)
        &&& self.tables@.len() == self.idb@.len()
        &&& forall|k: int|
            0 <= k < self.idb@.len() ==> (#[trigger] self.idb@[k]) < n
                && self.tables@[k].wf()
                && self.tables@[k].arity == self.program.preds@[self.idb@[k] as int].arity
                && self.tables@[k].domain == d
                && self.tables@[k].records() == self.db@[self.idb@[k] as int].tuples.deep_view()
    }

    /// The engine invariant.
    pub open spec fn wf(self) -> bool {
        &&& self.wf_core()
        &&& self.state == EngineState::ResultsAvailable ==> self.results_wf()
    }

    /// Validates the program, stratifies it, and seeds every predicate's
    /// relation with the base facts.  Fails with `SchemaError` exactly when
    /// the schema is inconsistent, with `InitializationError` exactly when a
    /// rule is not range-restricted, and with `UnstratifiableProgramError`
    /// exactly when no stratification within the predicate count exists.
    #[verifier::loop_isolation(false)]
    pub fn initialize(program: Program) -> (r: Result<ExecutionEngine, EngineError>)
        ensures
            match r {
                Ok(e) => {
                    &&& schema_ok(&program)
                    &&& rules_safe(&program)
                    &&& e.wf()
                    &&& e.state == EngineState::Initialized
                    &&& e.program == program
                    &&& e.db@.len() == program.preds@.len()
                    &&& forall|q: int, t: Seq<usize>|
                        0 <= q < e.db@.len() && #[trigger] rel_contains(e.db@[q], t)
                            ==> exists|m: int|
                            0 <= m < program.facts@.len() && (#[trigger] program.facts@[m]).pred
                                == q && program.facts@[m].args@ == t
                },
                Err(e) => {
                    &&& e == EngineError::SchemaError <==> !schema_ok(&program)
                    &&& e == EngineError::InitializationError <==> schema_ok(&program)
                        && !rules_safe(&program)
                    &&& e == EngineError::UnstratifiableProgramError <==> schema_ok(&program)
                        && rules_safe(&program) && !bounded_stratification_exists(&program)
                    &&& (e == EngineError::SchemaError || e == EngineError::InitializationError
                        || e == EngineError::UnstratifiableProgramError)
                },
            },
    {
        if !check_schema(&program) {
            return Err(EngineError::SchemaError);
        }
        if !check_safety(&program) {
            return Err(EngineError::InitializationError);
        }
        let strata = match stratify(&program) {
            Ok(st) => st,
            Err(e) => {
                return Err(EngineError::UnstratifiableProgramError);
            },
        };
        let n = program.preds.len();
        let d = program.constants.len();
        let mut db: Vec<Relation> = Vec::new();
        let mut q: usize = 0;
        while q < n
            invariant
                q <= n,
                db@.len() == q,
                forall|x: int|
                    0 <= x < q ==> (#[trigger] db@[x]).arity == program.preds@[x].arity
                        && db@[x].domain == d && rel_inv(db@[x]) && db@[x].tuples@.len() == 0,
            decreases n - q,
        {
            db.push(Relation::empty(program.preds[q].arity, d));
            q += 1;
        }
        proof {
            assert forall|x: int, t: Seq<usize>|
                0 <= x < n && #[trigger] rel_contains(db@[x], t) implies false by {
                assert(db@[x].tuples.deep_view().len() == 0);
            }
        }
        let mut i: usize = 0;
        while i < program.facts.len()
            invariant
                i <= program.facts@.len(),
                db@.len() == n,
                forall|x: int|
                    0 <= x < n ==> (#[trigger] db@[x]).arity == program.preds@[x].arity
                        && db@[x].domain == d && rel_inv(db@[x]),
                forall|m: int|
                    0 <= m < i ==> rel_contains(
                        db@[(#[trigger] program.facts@[m]).pred as int],
                        program.facts@[m].args@,
                    ),
                forall|x: int, t: Seq<usize>|
                    0 <= x < n && #[trigger] rel_contains(db@[x], t) ==> exists|m: int|
                        0 <= m < i && (#[trigger] program.facts@[m]).pred == x
                            && program.facts@[m].args@ == t,
            decreases program.facts@.len() - i,
        {
            let f_pred = program.facts[i].pred;
            let args = copy_tuple(&program.facts[i].args);
            assert(fact_wf(&program, program.facts@[i as int]));
            let ghost db_before = db@;
            db_insert(&mut db, f_pred, args);
            proof {
                assert forall|m: int|
                    0 <= m <= i implies rel_contains(
                    db@[(#[trigger] program.facts@[m]).pred as int],
                    program.facts@[m].args@,
                ) by {
                    let fp = program.facts@[m].pred as int;
                    let am = program.facts@[m].args@;
                    let ai = program.facts@[i as int].args@;
                    if m < i {
                        assert(rel_contains(db_before[fp], am));
                        if fp == f_pred as int && !rel_contains(db_before[fp], ai) {
                            let dv = db_before[fp].tuples.deep_view();
                            let idx = choose|idx: int| 0 <= idx < dv.len() && dv[idx] == am;
                            assert(db@[fp].tuples.deep_view()[idx] == am);
                            assert(rel_contains(db@[fp], am));
                        } else {
                            assert(db@[fp] == db_before[fp]);
                        }
                    } else {
                        if !rel_contains(db_before[fp], ai) {
                            let len0 = db_before[fp].tuples.deep_view().len() as int;
                            assert(db@[fp].tuples.deep_view()[len0] == ai);
                            assert(rel_contains(db@[fp], ai));
                        } else {
                            assert(db@[fp] == db_before[fp]);
                        }
                    }
                }
                let ai = program.facts@[i as int].args@;
                assert forall|x: int, t: Seq<usize>|
                    0 <= x < n && #[trigger] rel_contains(db@[x], t) implies exists|m: int|
                    0 <= m <= i && (#[trigger] program.facts@[m]).pred == x
                        && program.facts@[m].args@ == t by {
                    if x == f_pred as int && !rel_contains(db_before[x], ai) {
                        let dv = db@[x].tuples.deep_view();
                        let pv = db_before[x].tuples.deep_view();
                        let idx = choose|idx: int| 0 <= idx < dv.len() && dv[idx] == t;
                        if idx < pv.len() {
                            assert(rel_contains(db_before[x], t));
                        } else {
                            assert(t == ai);
                            assert(program.facts@[i as int].pred == x && program.facts@[i as int
                            ].args@ == t);
                        }
                    } else {
                        assert(db@[x] == db_before[x]);
                        assert(rel_contains(db_before[x], t));
                    }
                }
            }
            i += 1;
        }
        Ok(
            ExecutionEngine {
                program,
                strata,
                db,
                state: EngineState::Initialized,
                idb: Vec::new(),
                tables: Vec::new(),
            },
        )
    }

    /// Runs the semi-naive fixpoint of the rules whose head lies in stratum
    /// `s`: one full round over those rules, then rounds that bind one body
    /// literal at a time to the tuples derived in the previous round, until a
    /// round derives nothing new.
    #[verifier::loop_isolation(false)]
    fn run_stratum(&mut self, s: usize)
        requires
            old(self).wf_core(),
        ensures
            final(self).wf_core(),
            final(self).program == old(self).program,
            final(self).strata == old(self).strata,
            final(self).state == old(self).state,
            final(self).idb == old(self).idb,
            final(self).tables == old(self).tables,
            db_extends(final(self).db@, old(self).db@),
            forall|q: int|
                0 <= q < old(self).db@.len() && !is_idb(&old(self).program, q as usize)
                    ==> final(self).db@[q] == old(self).db@[q],
    {
        let n = self.program.preds.len();
        let d = self.program.constants.len();
        let ghost dn = d as nat;
        let mut delta: Vec<Relation> = Vec::new();
        let mut q: usize = 0;
        while q < n
            invariant
                q <= n,
                delta@.len() == q,
                forall|x: int|
                    0 <= x < q ==> (#[trigger] delta@[x]).arity == self.program.preds@[x].arity
                        && delta@[x].domain == d && rel_inv(delta@[x]) && delta@[x].tuples@.len()
                        == 0,
            decreases n - q,
        {
            delta.push(Relation::empty(self.program.preds[q].arity, d));
            q += 1;
        }
        proof {
            assert forall|x: int, t: Seq<usize>|
                0 <= x < delta@.len() && #[trigger] rel_contains(delta@[x], t) implies rel_contains(
                self.db@[x],
                t,
            ) by {
                assert(delta@[x].tuples.deep_view().len() == 0);
            }
            crate::bound::lemma_db_count_empty(delta@);
        }
        let mut i: usize = 0;
        while i < self.program.rules.len()
            invariant
                self.wf_core(),
                self.program == old(self).program,
                self.strata == old(self).strata,
                self.state == old(self).state,
                self.idb == old(self).idb,
                self.tables == old(self).tables,
                db_extends(self.db@, old(self).db@),
                forall|q: int|
                    0 <= q < old(self).db@.len() && !is_idb(&old(self).program, q as usize)
                        ==> self.db@[q] == old(self).db@[q],
                db_rels_ok(delta@, dn),
                delta_ok(delta@, self.db@),
                db_subset(delta@, self.db@),
            decreases self.program.rules@.len() - i,
        {
            let hp = self.program.rules[i].head.pred;
            proof {
                assert(rule_wf(&self.program, self.program.rules@[i as int]));
            }
            if self.strata[hp] == s {
                let nv = self.program.rules[i].num_vars;
                let sub = new_sub(nv, Ghost(dn));
                proof {
                    lemma_rule_eval_pre(
                        &self.program,
                        self.program.rules@[i as int],
                        self.db@,
                        delta@,
                        dn,
                    );
                }
                let mut acc: Vec<Vec<usize>> = Vec::new();
                eval_rule_from(
                    &self.program.rules[i],
                    0,
                    sub,
                    &self.db,
                    &delta,
                    None,
                    &mut acc,
                    Ghost(dn),
                );
                let ghost db_prev = self.db@;
                drain_acc(&mut self.db, &mut delta, hp, &mut acc, Ghost(dn));
                proof {
                    lemma_db_extends_trans(old(self).db@, db_prev, self.db@);
                    lemma_facts_preserved(&self.program, db_prev, self.db@);
                    assert(self.program.rules@[i as int].head.pred == hp);
                    assert(is_idb(&self.program, hp));
                    assert forall|q: int|
                        0 <= q < old(self).db@.len() && !is_idb(
                            &old(self).program,
                            q as usize,
                        ) implies self.db@[q] == old(self).db@[q] by {
                        assert(q != hp as int);
                        assert(self.db@[q] == db_prev[q]);
                    }
                }
            }
            i += 1;
        }
        proof {
            crate::bound::lemma_db_count_le_bound(self.db@);
            crate::bound::lemma_db_count_nonneg(delta@);
        }
        let mut done = false;
        while !done
            invariant
                self.wf_core(),
                self.program == old(self).program,
                self.strata == old(self).strata,
                self.state == old(self).state,
                self.idb == old(self).idb,
                self.tables == old(self).tables,
                db_extends(self.db@, old(self).db@),
                forall|q: int|
                    0 <= q < old(self).db@.len() && !is_idb(&old(self).program, q as usize)
                        ==> self.db@[q] == old(self).db@[q],
                db_rels_ok(delta@, dn),
                delta_ok(delta@, self.db@),
                db_subset(delta@, self.db@),
                crate::bound::db_count(self.db@) <= crate::bound::db_bound(self.db@),
                crate::bound::db_count(delta@) >= 0,
            decreases
                    crate::bound::db_bound(self.db@) - crate::bound::db_count(self.db@),
                    crate::bound::db_count(delta@),
                    (if done {
                        0int
                    } else {
                        1int
                    }),
        {
            let ghost iter_db0 = self.db@;
            let mut any = false;
            let mut q2: usize = 0;
            while q2 < delta.len()
                invariant
                    q2 <= delta@.len(),
                    any ==> exists|x: int|
                        0 <= x < delta@.len() && (#[trigger] delta@[x]).tuples@.len() > 0,
                decreases delta@.len() - q2,
            {
                if delta[q2].tuples.len() > 0 {
                    any = true;
                }
                q2 += 1;
            }
            if !any {
                done = true;
            } else {
                proof {
                    let x = choose|x: int|
                        0 <= x < delta@.len() && (#[trigger] delta@[x]).tuples@.len() > 0;
                    crate::bound::lemma_db_count_ge(delta@, x);
                }
                let ghost round_db0 = self.db@;
                let mut new_delta: Vec<Relation> = Vec::new();
                let mut q3: usize = 0;
                while q3 < n
                    invariant
                        q3 <= n,
                        new_delta@.len() == q3,
                        forall|x: int|
                            0 <= x < q3 ==> (#[trigger] new_delta@[x]).arity
                                == self.program.preds@[x].arity && new_delta@[x].domain == d
                                && rel_inv(new_delta@[x]) && new_delta@[x].tuples@.len() == 0,
                    decreases n - q3,
                {
                    new_delta.push(Relation::empty(self.program.preds[q3].arity, d));
                    q3 += 1;
                }
                proof {
                    assert forall|x: int, t: Seq<usize>|
                        0 <= x < new_delta@.len() && #[trigger] rel_contains(
                        new_delta@[x],
                        t,
                    ) implies rel_contains(self.db@[x], t) by {
                        assert(new_delta@[x].tuples.deep_view().len() == 0);
                    }
                    crate::bound::lemma_db_count_empty(new_delta@);
                }
                let mut i2: usize = 0;
                while i2 < self.program.rules.len()
                    invariant
                        self.wf_core(),
                        self.program == old(self).program,
                        self.strata == old(self).strata,
                        self.state == old(self).state,
                        self.idb == old(self).idb,
                        self.tables == old(self).tables,
                        db_extends(self.db@, old(self).db@),
                        forall|q: int|
                            0 <= q < old(self).db@.len() && !is_idb(&old(self).program, q as usize)
                                ==> self.db@[q] == old(self).db@[q],
                        db_rels_ok(delta@, dn),
                        delta_ok(delta@, self.db@),
                        db_rels_ok(new_delta@, dn),
                        delta_ok(new_delta@, self.db@),
                        db_subset(new_delta@, self.db@),
                        crate::bound::db_count(self.db@) - crate::bound::db_count(round_db0)
                            == crate::bound::db_count(new_delta@),
                        crate::bound::db_count(new_delta@) >= 0,
                    decreases self.program.rules@.len() - i2,
                {
                    let hp = self.program.rules[i2].head.pred;
                    proof {
                        assert(rule_wf(&self.program, self.program.rules@[i2 as int]));
                    }
                    if self.strata[hp] == s {
                        let nv = self.program.rules[i2].num_vars;
                        let mut pp: usize = 0;
                        while pp < self.program.rules[i2].body.len()
                            invariant
                                self.wf_core(),
                                self.program == old(self).program,
                                self.strata == old(self).strata,
                                self.state == old(self).state,
                                self.idb == old(self).idb,
                                self.tables == old(self).tables,
                                db_extends(self.db@, old(self).db@),
                                forall|q: int|
                                    0 <= q < old(self).db@.len() && !is_idb(
                                        &old(self).program,
                                        q as usize,
                                    ) ==> self.db@[q] == old(self).db@[q],
                                db_rels_ok(delta@, dn),
                                delta_ok(delta@, self.db@),
                                db_rels_ok(new_delta@, dn),
                                delta_ok(new_delta@, self.db@),
                                db_subset(new_delta@, self.db@),
                                crate::bound::db_count(self.db@) - crate::bound::db_count(
                                    round_db0,
                                ) == crate::bound::db_count(new_delta@),
                                crate::bound::db_count(new_delta@) >= 0,
                                hp == self.program.rules@[i2 as int].head.pred,
                                nv == self.program.rules@[i2 as int].num_vars,
                                i2 < self.program.rules@.len(),
                            decreases self.program.rules@[i2 as int].body@.len() - pp,
                        {
                            let lit_pos = self.program.rules[i2].body[pp].positive;
                            let bp = self.program.rules[i2].body[pp].atom.pred;
                            proof {
                                assert(rule_wf(&self.program, self.program.rules@[i2 as int]));
                                assert(crate::model::atom_wf(
                                    &self.program,
                                    self.program.rules@[i2 as int].body@[pp as int].atom,
                                ));
                            }
                            if lit_pos && self.strata[bp] == s {
                                let sub = new_sub(nv, Ghost(dn));
                                proof {
                                    lemma_rule_eval_pre(
                                        &self.program,
                                        self.program.rules@[i2 as int],
                                        self.db@,
                                        delta@,
                                        dn,
                                    );
                                }
                                let mut acc: Vec<Vec<usize>> = Vec::new();
                                eval_rule_from(
                                    &self.program.rules[i2],
                                    0,
                                    sub,
                                    &self.db,
                                    &delta,
                                    Some(pp),
                                    &mut acc,
                                    Ghost(dn),
                                );
                                let ghost db_prev = self.db@;
                                drain_acc(&mut self.db, &mut new_delta, hp, &mut acc, Ghost(dn));
                                proof {
                                    lemma_db_extends_trans(old(self).db@, db_prev, self.db@);
                                    lemma_facts_preserved(&self.program, db_prev, self.db@);
                                    assert(self.program.rules@[i2 as int].head.pred == hp);
                                    assert(is_idb(&self.program, hp));
                                    assert forall|q: int|
                                        0 <= q < old(self).db@.len() && !is_idb(
                                            &old(self).program,
                                            q as usize,
                                        ) implies self.db@[q] == old(self).db@[q] by {
                                        assert(q != hp as int);
                                        assert(self.db@[q] == db_prev[q]);
                                    }
                                }
                            }
                            pp += 1;
                        }
                    }
                    i2 += 1;
                }
                delta = new_delta;
                proof {
                    crate::bound::lemma_db_count_le_bound(self.db@);
                    assert forall|x: int|
                        0 <= x < iter_db0.len() implies (#[trigger] iter_db0[x]).arity
                        == self.db@[x].arity && iter_db0[x].domain == self.db@[x].domain by {}
                    crate::bound::lemma_db_bound_same(iter_db0, self.db@);
                    crate::bound::lemma_db_count_nonneg(delta@);
                }
            }
        }
    }

    /// Computes the stratified, semi-naive fixpoint.  On completion the
    /// database is provably closed under every rule: whatever a rule derives
    /// from the final database is already in it.  Re-running a finished
    /// engine changes nothing and derives nothing new.
    #[verifier::loop_isolation(false)]
    pub fn execute(&mut self) -> (r: Result<(), EngineError>)
        requires
            old(self).wf(),
        ensures
            r is Ok,
            final(self).wf(),
            final(self).program == old(self).program,
            old(self).state != EngineState::Initialized ==> *final(self) == *old(self),
            old(self).state == EngineState::Initialized ==> {
                &&& final(self).state == EngineState::Executed
                &&& final(self).strata == old(self).strata
                &&& db_extends(final(self).db@, old(self).db@)
                &&& forall|q: int|
                    0 <= q < old(self).db@.len() && !is_idb(&old(self).program, q as usize)
                        ==> final(self).db@[q] == old(self).db@[q]
                &&& db_closed(&old(self).program, final(self).db@)
            },
    {
        if !(matches!(self.state, EngineState::Initialized)) {
            return Ok(());
        }
        let n = self.program.preds.len();
        let mut s: usize = 0;
        loop
            invariant
                s <= n,
                self.wf_core(),
                self.program == old(self).program,
                self.strata == old(self).strata,
                self.state == old(self).state,
                self.idb == old(self).idb,
                self.tables == old(self).tables,
                db_extends(self.db@, old(self).db@),
                forall|q: int|
                    0 <= q < old(self).db@.len() && !is_idb(&old(self).program, q as usize)
                        ==> self.db@[q] == old(self).db@[q],
            decreases n - s,
        {
            let ghost db_prev = self.db@;
            self.run_stratum(s);
            proof {
                lemma_db_extends_trans(old(self).db@, db_prev, self.db@);
                assert forall|q: int|
                    0 <= q < old(self).db@.len() && !is_idb(
                        &old(self).program,
                        q as usize,
                    ) implies self.db@[q] == old(self).db@[q] by {
                    assert(self.db@[q] == db_prev[q]);
                }
            }
            if s == n {
                break ;
            }
            s += 1;
        }
        // A confirmation sweep witnesses the fixpoint: the loop ends when one
        // full pass over every rule derives nothing that is not already
        // present, which yields closure under all rules.
        let d = self.program.constants.len();
        let ghost dn = d as nat;
        proof {
            crate::bound::lemma_db_count_le_bound(self.db@);
        }
        let mut confirmed = false;
        while !confirmed
            invariant
                self.wf_core(),
                self.program == old(self).program,
                self.strata == old(self).strata,
                self.state == old(self).state,
                self.idb == old(self).idb,
                self.tables == old(self).tables,
                db_extends(self.db@, old(self).db@),
                forall|q: int|
                    0 <= q < old(self).db@.len() && !is_idb(&old(self).program, q as usize)
                        ==> self.db@[q] == old(self).db@[q],
                n == self.program.preds@.len(),
                d == self.program.constants@.len(),
                crate::bound::db_count(self.db@) <= crate::bound::db_bound(self.db@),
                confirmed ==> db_closed(&self.program, self.db@),
            decreases
                    crate::bound::db_bound(self.db@) - crate::bound::db_count(self.db@),
                    (if confirmed {
                        0int
                    } else {
                        1int
                    }),
        {
            let ghost pass_db = self.db@;
            let mut pass_delta: Vec<Relation> = Vec::new();
            let mut q: usize = 0;
            while q < n
                invariant
                    q <= n,
                    pass_delta@.len() == q,
                    forall|x: int|
                        0 <= x < q ==> (#[trigger] pass_delta@[x]).arity
                            == self.program.preds@[x].arity && pass_delta@[x].domain == d
                            && rel_inv(pass_delta@[x]) && pass_delta@[x].tuples@.len() == 0,
                decreases n - q,
            {
                pass_delta.push(Relation::empty(self.program.preds[q].arity, d));
                q += 1;
            }
            proof {
                assert forall|x: int, t: Seq<usize>|
                    0 <= x < pass_delta@.len() && #[trigger] rel_contains(
                    pass_delta@[x],
                    t,
                ) implies rel_contains(self.db@[x], t) by {
                    assert(pass_delta@[x].tuples.deep_view().len() == 0);
                }
                crate::bound::lemma_db_count_empty(pass_delta@);
            }
            let mut i: usize = 0;
            while i < self.program.rules.len()
                invariant
                    self.wf_core(),
                    self.program == old(self).program,
                    self.strata == old(self).strata,
                    self.state == old(self).state,
                    self.idb == old(self).idb,
                    self.tables == old(self).tables,
                    db_extends(self.db@, old(self).db@),
                    forall|q2: int|
                        0 <= q2 < old(self).db@.len() && !is_idb(&old(self).program, q2 as usize)
                            ==> self.db@[q2] == old(self).db@[q2],
                    n == self.program.preds@.len(),
                    d == self.program.constants@.len(),
                    db_rels_ok(pass_delta@, dn),
                    delta_ok(pass_delta@, self.db@),
                    db_subset(pass_delta@, self.db@),
                    crate::bound::db_count(self.db@) - crate::bound::db_count(pass_db)
                        == crate::bound::db_count(pass_delta@),
                    crate::bound::db_count(pass_delta@) >= 0,
                    crate::bound::db_count(pass_delta@) == 0 ==> self.db@ == pass_db,
                    crate::bound::db_count(pass_delta@) == 0 ==> forall|i2: int, asg: Seq<usize>|
                        0 <= i2 < i && #[trigger] asg_open(
                            self.program.rules@[i2],
                            0,
                            self.db@,
                            asg,
                        ) ==> rel_contains(
                            self.db@[self.program.rules@[i2].head.pred as int],
                            image_of(self.program.rules@[i2].head, asg),
                        ),
                decreases self.program.rules@.len() - i,
            {
                let hp = self.program.rules[i].head.pred;
                proof {
                    assert(rule_wf(&self.program, self.program.rules@[i as int]));
                    assert(crate::model::rule_safe(self.program.rules@[i as int]));
                    lemma_rule_eval_pre(
                        &self.program,
                        self.program.rules@[i as int],
                        self.db@,
                        self.db@,
                        dn,
                    );
                }
                let nv = self.program.rules[i].num_vars;
                let sub = new_sub(nv, Ghost(dn));
                let ghost sub_snap = sub@;
                let mut acc: Vec<Vec<usize>> = Vec::new();
                eval_rule_from(
                    &self.program.rules[i],
                    0,
                    sub,
                    &self.db,
                    &self.db,
                    None,
                    &mut acc,
                    Ghost(dn),
                );
                let ghost acc_snap = acc@;
                let ghost db_before = self.db@;
                let ghost delta_before = pass_delta@;
                drain_acc(&mut self.db, &mut pass_delta, hp, &mut acc, Ghost(dn));
                proof {
                    lemma_db_extends_trans(old(self).db@, db_before, self.db@);
                    lemma_facts_preserved(&self.program, db_before, self.db@);
                    assert(self.program.rules@[i as int].head.pred == hp);
                    assert(is_idb(&self.program, hp));
                    assert forall|q2: int|
                        0 <= q2 < old(self).db@.len() && !is_idb(
                            &old(self).program,
                            q2 as usize,
                        ) implies self.db@[q2] == old(self).db@[q2] by {
                        assert(q2 != hp as int);
                        assert(self.db@[q2] == db_before[q2]);
                    }
                    if crate::bound::db_count(pass_delta@) == 0 {
                        crate::bound::lemma_db_count_nonneg(delta_before);
                        assert(crate::bound::db_count(delta_before) == 0);
                        assert(db_before == pass_db);
                        assert(self.db@ == db_before);
                        assert forall|i2: int, asg: Seq<usize>|
                            0 <= i2 < i + 1 && #[trigger] asg_open(
                                self.program.rules@[i2],
                                0,
                                self.db@,
                                asg,
                            ) implies rel_contains(
                            self.db@[self.program.rules@[i2].head.pred as int],
                            image_of(self.program.rules@[i2].head, asg),
                        ) by {
                            if i2 == i {
                                assert(asg_extends(asg, sub_snap));
                                assert(acc_hits(acc_snap, image_of(
                                    self.program.rules@[i2].head,
                                    asg,
                                )));
                                let x = choose|x: int|
                                    0 <= x < acc_snap.len() && acc_snap[x]@ == image_of(
                                        self.program.rules@[i2].head,
                                        asg,
                                    );
                                assert(rel_contains(self.db@[hp as int], acc_snap[x]@));
                            }
                        }
                    }
                }
                i += 1;
            }
            let mut any = false;
            let mut q2: usize = 0;
            while q2 < pass_delta.len()
                invariant
                    q2 <= pass_delta@.len(),
                    !any ==> forall|x: int|
                        0 <= x < q2 ==> (#[trigger] pass_delta@[x]).tuples@.len() == 0,
                    any ==> exists|x: int|
                        0 <= x < pass_delta@.len() && (#[trigger] pass_delta@[x]).tuples@.len()
                            > 0,
                decreases pass_delta@.len() - q2,
            {
                if pass_delta[q2].tuples.len() > 0 {
                    any = true;
                }
                q2 += 1;
            }
            if !any {
                proof {
                    crate::bound::lemma_db_count_empty(pass_delta@);
                    assert forall|i2: int, t: Seq<usize>|
                        0 <= i2 < self.program.rules@.len()
                            && #[trigger] crate::model::rule_derives(
                            self.program.rules@[i2],
                            db_sets(self.db@),
                            t,
                        ) implies rel_contains(
                        self.db@[self.program.rules@[i2].head.pred as int],
                        t,
                    ) by {
                        let rule = self.program.rules@[i2];
                        assert(rule_wf(&self.program, rule));
                        assert forall|j: int|
                            0 <= j < rule.body@.len() implies (#[trigger] rule.body@[j]).atom.pred
                            < self.db@.len() by {
                            assert(crate::model::atom_wf(&self.program, rule.body@[j].atom));
                        }
                        let m = choose|m: Map<usize, usize>|
                            crate::model::rule_body_sat(rule, db_sets(self.db@), m) && t
                                == crate::model::atom_image(rule.head, m);
                        lemma_derives_to_asg(rule, self.db@, m);
                        let asg = Seq::new(rule.num_vars as nat, |v: int| m[v as usize]);
                        assert(asg_open(rule, 0, self.db@, asg));
                        assert(rel_contains(
                            self.db@[rule.head.pred as int],
                            image_of(rule.head, asg),
                        ));
                    }
                    assert(db_closed(&self.program, self.db@));
                }
                confirmed = true;
            } else {
                proof {
                    let x = choose|x: int|
                        0 <= x < pass_delta@.len() && (#[trigger] pass_delta@[x]).tuples@.len()
                            > 0;
                    crate::bound::lemma_db_count_ge(pass_delta@, x);
                }
            }
            proof {
                crate::bound::lemma_db_count_le_bound(self.db@);
                assert forall|x: int|
                    0 <= x < pass_db.len() implies (#[trigger] pass_db[x]).arity
                    == self.db@[x].arity && pass_db[x].domain == self.db@[x].domain by {}
                crate::bound::lemma_db_bound_same(pass_db, self.db@);
            }
        }
        self.state = EngineState::Executed;
        Ok(())
    }

    /// Finalizes one immutable trie table per intensional predicate and
    /// returns those predicates, ascending.  Idempotent once results are
    /// available; fails exactly when the engine has not executed yet.
    #[verifier::loop_isolation(false)]
    pub fn combine_results(&mut self) -> (r: Result<Vec<usize>, EngineError>)
        requires
            old(self).wf(),
        ensures
            final(self).program == old(self).program,
            match r {
                Ok(ids) => {
                    &&& old(self).state != EngineState::Initialized
                    &&& final(self).wf()
                    &&& final(self).state == EngineState::ResultsAvailable
                    &&& final(self).db == old(self).db
                    &&& final(self).strata == old(self).strata
                    &&& ids@ == final(self).idb@
                    &&& forall|k1: int, k2: int| 0 <= k1 < k2 < ids@.len() ==> ids@[k1] < ids@[k2]
                    &&& forall|q: usize|
                        ids@.contains(q) <==> q < old(self).program.preds@.len() && is_idb(
                            &old(self).program,
                            q,
                        )
                    &&& (old(self).state == EngineState::ResultsAvailable ==> *final(self) == *old(
                        self,
                    ))
                },
                Err(e) => e == EngineError::ExecutionError && old(self).state
                    == EngineState::Initialized && *final(self) == *old(self),
            },
    {
        match self.state {
            EngineState::Initialized => Err(EngineError::ExecutionError),
            EngineState::ResultsAvailable => {
                let ids = copy_tuple(&self.idb);
                proof {
                    assert(ids@ =~= self.idb@);
                }
                Ok(ids)
            },
            EngineState::Executed => {
                let n = self.program.preds.len();
                let d = self.program.constants.len();
                let mut ids: Vec<usize> = Vec::new();
                let mut tables: Vec<TrieTable> = Vec::new();
                let mut q: usize = 0;
                while q < n
                    invariant
                        q <= n,
                        self.wf_core(),
                        n == self.program.preds@.len(),
                        d == self.program.constants@.len(),
                        tables@.len() == ids@.len(),
                        forall|k1: int, k2: int|
                            0 <= k1 < k2 < ids@.len() ==> ids@[k1] < ids@[k2],
                        forall|k: int| 0 <= k < ids@.len() ==> #[trigger] ids@[k] < q,
                        forall|x: usize|
                            ids@.contains(x) <==> x < q && is_idb(&self.program, x),
                        forall|k: int|
                            0 <= k < ids@.len() ==> (#[trigger] tables@[k]).wf()
                                && tables@[k].arity == self.program.preds@[ids@[k] as int].arity
                                && tables@[k].domain == d && tables@[k].records() == self.db@[
                                ids@[k] as int
                            ].tuples.deep_view(),
                    decreases n - q,
                {
                    if check_is_idb(&self.program, q) {
                        let ghost old_ids = ids@;
                        let tb = TrieTable::from_tuples(
                            &self.db[q].tuples,
                            self.db[q].arity,
                            d,
                        );
                        ids.push(q);
                        tables.push(tb);
                        proof {
                            assert forall|x: usize|
                                ids@.contains(x) <==> (x < q + 1 && is_idb(
                                    &self.program,
                                    x,
                                )) by {
                                if ids@.contains(x) {
                                    let k = choose|k: int|
                                        0 <= k < ids@.len() && ids@[k] == x;
                                    if k < old_ids.len() {
                                        assert(old_ids.contains(x));
                                    }
                                }
                                if x < q + 1 && is_idb(&self.program, x) {
                                    if x < q {
                                        assert(old_ids.contains(x));
                                        let k = choose|k: int|
                                            0 <= k < old_ids.len() && old_ids[k] == x;
                                        assert(ids@[k] == x);
                                    } else {
                                        assert(ids@[ids@.len() - 1] == x);
                                    }
                                }
                            }
                        }
                    } else {
                        proof {
                            assert forall|x: usize|
                                ids@.contains(x) <==> (x < q + 1 && is_idb(
                                    &self.program,
                                    x,
                                )) by {}
                        }
                    }
                    q += 1;
                }
                let ids2 = copy_tuple(&ids);
                proof {
                    assert(ids2@ =~= ids@);
                }
                self.idb = ids2;
                self.tables = tables;
                self.state = EngineState::ResultsAvailable;
                Ok(ids)
            },
        }
    }

    /// The record stream of a predicate's finalized table: present exactly
    /// when results are available, the predicate is intensional, and it
    /// derived at least one tuple.  A predicate that derived nothing, or an
    /// engine whose results are not yet combined, yields `None`, never an
    /// error.
    #[verifier::loop_isolation(false)]
    pub fn table_serializer(&self, pred: usize) -> (r: Option<TrieSerializer>)
        requires
            self.wf(),
        ensures
            r is Some <==> (self.state == EngineState::ResultsAvailable && self.idb@.contains(pred)
                && self.db@[pred as int].tuples@.len() > 0),
            match r {
                Some(ser) => {
                    &&& ser.wf()
                    &&& ser.pos == 0
                    &&& ser.tuples() == self.db@[pred as int].tuples.deep_view()
                    &&& ser.dict.deep_view() == self.program.constants.deep_view()
                },
                None => true,
            },
    {
        match self.state {
            EngineState::ResultsAvailable => {},
            _ => {
                return None;
            },
        }
        let mut k: usize = 0;
        while k < self.idb.len()
            invariant
                k <= self.idb@.len(),
                forall|m: int| 0 <= m < k ==> self.idb@[m] != pred,
            decreases self.idb@.len() - k,
        {
            if self.idb[k] == pred {
                proof {
                    assert(self.idb@.contains(pred));
                }
                if self.db[pred].tuples.len() == 0 {
                    return None;
                }
                let d = self.program.constants.len();
                let tb = TrieTable::from_tuples(&self.db[pred].tuples, self.db[pred].arity, d);
                let dict = copy_dict(&self.program.constants);
                let ser = TrieSerializer {
                    arity: tb.arity,
                    domain: tb.domain,
                    recs: tb.recs,
                    dict,
                    pos: 0,
                    cur: Vec::new(),
                };
                proof {
                    lemma_dict_deep_view(self.program.constants);
                    lemma_dict_deep_view(ser.dict);
                    assert forall|i: int, j: int|
                        0 <= i < j < ser.dict@.len() implies ser.dict.deep_view()[i]
                        != ser.dict.deep_view()[j] by {
                        if self.program.constants@[i]@ == self.program.constants@[j]@ {
                            assert(crate::model::constants_conflict(self.program.constants@));
                        }
                    }
                }
                return Some(ser);
            }
            k += 1;
        }
        proof {
            if self.idb@.contains(pred) {
                let m = choose|m: int| 0 <= m < self.idb@.len() && self.idb@[m] == pred;
            }
        }
        None
    }

    /// The declared name of a predicate, or `None` for an unknown id.
    #[verifier::loop_isolation(false)]
    pub fn predicate_name(&self, pred: usize) -> (r: Option<Vec<u8>>)
        ensures
            match r {
                Some(name) => pred < self.program.preds@.len() && name@ == self.program.preds@[
                    pred as int
                ].name@,
                None => pred >= self.program.preds@.len(),
            },
    {
        if pred >= self.program.preds.len() {
            return None;
        }
        let mut name: Vec<u8> = Vec::new();
        let src = &self.program.preds[pred].name;
        let mut i: usize = 0;
        while i < src.len()
            invariant
                i <= src@.len(),
                name@ =~= src@.take(i as int),
            decreases src@.len() - i,
        {
            name.push(src[i]);
            i += 1;
        }
        proof {
            assert(name@ =~= src@);
        }
        Some(name)
    }

    /// The full extension of a predicate as rows of dictionary values, in
    /// the table's iteration order; empty when the predicate derived nothing
    /// or results are not available.
    #[verifier::loop_isolation(false)]
    pub fn result(&self, pred: usize) -> (r: Vec<Vec<Vec<u8>>>)
        requires
            self.wf(),
        ensures
            (self.state == EngineState::ResultsAvailable && self.idb@.contains(pred)
                && self.db@[pred as int].tuples@.len() > 0) ==> r.deep_view() == self.db@[
                pred as int
            ].tuples.deep_view().map_values(
                |t: Seq<usize>| row_of(t, self.program.constants.deep_view()),
            ),
            !(self.state == EngineState::ResultsAvailable && self.idb@.contains(pred)
                && self.db@[pred as int].tuples@.len() > 0) ==> r.deep_view()
                == Seq::<Seq<Seq<u8>>>::empty(),
    {
        match self.table_serializer(pred) {
            None => {
                let r: Vec<Vec<Vec<u8>>> = Vec::new();
                proof {
                    assert(r.deep_view() =~= Seq::<Seq<Seq<u8>>>::empty());
                }
                r
            },
            Some(mut ser) => {
                let ghost rows = ser.rows();
                let mut out: Vec<Vec<Vec<u8>>> = Vec::new();
                loop
                    invariant
                        ser.wf(),
                        ser.recs@.len() >= ser.pos,
                        ser.rows() == rows,
                        ser.tuples() == self.db@[pred as int].tuples.deep_view(),
                        ser.dict.deep_view() == self.program.constants.deep_view(),
                        out@.len() == ser.pos,
                        out.deep_view() == rows.take(ser.pos as int),
                    decreases ser.recs@.len() - ser.pos,
                {
                    let ghost pos0 = ser.pos;
                    match ser.next_record() {
                        None => {
                            break ;
                        },
                        Some(row) => {
                            out.push(row);
                            proof {
                                crate::table::lemma_decode_len(ser.recs@);
                                assert(out.deep_view() =~~= rows.take(ser.pos as int));
                            }
                        },
                    }
                }
                proof {
                    crate::table::lemma_decode_len(ser.recs@);
                    assert(rows.take(rows.len() as int) =~= rows);
                    assert(out.deep_view() == self.db@[pred as int].tuples.deep_view().map_values(
                        |t: Seq<usize>| row_of(t, self.program.constants.deep_view()),
                    ));
                }
                out
            },
        }
    }
}

} // verus!
