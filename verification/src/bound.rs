//! The finite-domain bound that makes the fixpoint terminate: a relation of
//! arity `a` over a dictionary of `d` constants holds at most `d^a` distinct
//! tuples, so monotone derivation must converge.

use vstd::prelude::*;

use vstd::arithmetic::power::pow;
use vstd::relations::injective_on;
use vstd::seq_lib::seq_to_set_is_finite;
use vstd::set::group_set_axioms;
use vstd::set_lib::{lemma_int_range, lemma_len_subset, lemma_map_size, set_int_range};

use crate::engine::{lemma_tuples_deep_view, rel_inv, Relation};

verus! {

/// The base-`d` encoding of a tuple of column ids below `d`.
pub open spec fn encode_tuple(t: Seq<usize>, d: nat) -> int
    decreases t.len(),
{
    if t.len() == 0 {
        0
    } else {
        encode_tuple(t.drop_last(), d) * d + t.last()
    }
}

/// The encoding of a valid tuple lies below `d` to the tuple's length.
proof fn lemma_encode_range(t: Seq<usize>, d: nat)
    requires
        forall|k: int| 0 <= k < t.len() ==> t[k] < d,
    ensures
        0 <= encode_tuple(t, d) < pow(d as int, t.len() as nat),
    decreases t.len(),
{
    if t.len() == 0 {
        vstd::arithmetic::power::lemma_pow0(d as int);
    } else {
        assert(forall|k: int| 0 <= k < t.drop_last().len() ==> t.drop_last()[k] < d);
        lemma_encode_range(t.drop_last(), d);
        let e = encode_tuple(t.drop_last(), d);
        let p1 = pow(d as int, (t.len() - 1) as nat);
        vstd::arithmetic::power::lemma_pow1(d as int);
        vstd::arithmetic::power::lemma_pow_adds(d as int, 1nat, (t.len() - 1) as nat);
        assert(pow(d as int, t.len() as nat) == (d as int) * p1);
        assert(t.last() < d);
        let l = t.last() as int;
        let dd = d as int;
        assert(0 <= e * dd + l < p1 * dd) by (nonlinear_arith)
            requires
                0 <= e < p1,
                0 <= l < dd,
        ;
        assert(encode_tuple(t, d) == e * dd + l);
        assert(p1 * dd == dd * p1) by (nonlinear_arith);
    }
}

/// Valid tuples of one length with equal encodings are equal.
proof fn lemma_encode_injective(t1: Seq<usize>, t2: Seq<usize>, d: nat)
    requires
        t1.len() == t2.len(),
        forall|k: int| 0 <= k < t1.len() ==> t1[k] < d,
        forall|k: int| 0 <= k < t2.len() ==> t2[k] < d,
        encode_tuple(t1, d) == encode_tuple(t2, d),
    ensures
        t1 == t2,
    decreases t1.len(),
{
    if t1.len() == 0 {
        assert(t1 =~= t2);
    } else {
        assert(forall|k: int| 0 <= k < t1.drop_last().len() ==> t1.drop_last()[k] < d);
        assert(forall|k: int| 0 <= k < t2.drop_last().len() ==> t2.drop_last()[k] < d);
        let e1 = encode_tuple(t1.drop_last(), d);
        let e2 = encode_tuple(t2.drop_last(), d);
        lemma_encode_range(t1.drop_last(), d);
        lemma_encode_range(t2.drop_last(), d);
        let l1 = t1.last() as int;
        let l2 = t2.last() as int;
        let dd = d as int;
        assert(encode_tuple(t1, d) == e1 * dd + l1);
        assert(encode_tuple(t2, d) == e2 * dd + l2);
        assert((e1 - e2) * dd == l2 - l1) by (nonlinear_arith)
            requires
                e1 * dd + l1 == e2 * dd + l2,
        ;
        assert(e1 == e2) by (nonlinear_arith)
            requires
                (e1 - e2) * dd == l2 - l1,
                0 <= l1 < dd,
                0 <= l2 < dd,
        ;
        assert(l1 == l2);
        lemma_encode_injective(t1.drop_last(), t2.drop_last(), d);
        assert forall|k: int| 0 <= k < t1.len() implies t1[k] == t2[k] by {
            if k < t1.len() - 1 {
                assert(t1.drop_last()[k] == t2.drop_last()[k]);
            } else {
                assert(t1.last() == t2.last());
            }
        }
        assert(t1 =~= t2);
    }
}

/// A well-formed relation holds at most `domain ^ arity` tuples.
pub proof fn lemma_rel_card(r: Relation)
    requires
        rel_inv(r),
    ensures
        r.tuples@.len() <= pow(r.domain as int, r.arity as nat),
{
    broadcast use group_set_axioms, seq_to_set_is_finite;

    let d = r.domain as nat;
    let a = r.arity as nat;
    let dv = r.tuples.deep_view();
    lemma_tuples_deep_view(r.tuples);
    assert(dv.no_duplicates());
    dv.unique_seq_to_set();
    let s = dv.to_set();
    assert forall|t: Seq<usize>| s.contains(t) implies t.len() == a && (forall|k: int|
        0 <= k < t.len() ==> t[k] < d) by {
        let idx = choose|idx: int| 0 <= idx < dv.len() && dv[idx] == t;
        assert(r.tuples@[idx]@ == t);
    }
    let f = |t: Seq<usize>| encode_tuple(t, d);
    assert forall|t1: Seq<usize>, t2: Seq<usize>|
        s.contains(t1) && s.contains(t2) && #[trigger] f(t1) == #[trigger] f(t2) implies t1
        == t2 by {
        lemma_encode_injective(t1, t2, d);
    }
    assert(injective_on(f, s));
    let sm = s.map(f);
    lemma_map_size(s, sm, f);
    let rng = set_int_range(0, pow(d as int, a));
    assert forall|x: int| sm.contains(x) implies rng.contains(x) by {
        let t = choose|t: Seq<usize>| s.contains(t) && #[trigger] f(t) == x;
        lemma_encode_range(t, d);
    }
    if d == 0 {
        if a != 0 {
            vstd::arithmetic::power::lemma0_pow(a);
        } else {
            vstd::arithmetic::power::lemma_pow0(0);
        }
    } else {
        vstd::arithmetic::power::lemma_pow_positive(d as int, a);
    }
    assert(pow(d as int, a) >= 0);
    assert(sm.subset_of(rng));
    lemma_int_range(0, pow(d as int, a));
    lemma_len_subset(sm, rng);
}

/// Total number of tuples held across the relations.
pub open spec fn db_count(db: Seq<Relation>) -> int
    decreases db.len(),
{
    if db.len() == 0 {
        0
    } else {
        db_count(db.drop_last()) + db.last().tuples@.len()
    }
}

/// Total capacity of the relations under the finite-domain bound.
pub open spec fn db_bound(db: Seq<Relation>) -> int
    decreases db.len(),
{
    if db.len() == 0 {
        0
    } else {
        db_bound(db.drop_last()) + pow(db.last().domain as int, db.last().arity as nat)
    }
}

/// A database of well-formed relations never exceeds its capacity.
pub proof fn lemma_db_count_le_bound(db: Seq<Relation>)
    requires
        forall|q: int| 0 <= q < db.len() ==> rel_inv(#[trigger] db[q]),
    ensures
        0 <= db_count(db) <= db_bound(db),
    decreases db.len(),
{
    if db.len() > 0 {
        assert(forall|q: int| 0 <= q < db.drop_last().len() ==> rel_inv(#[trigger] db.drop_last()[q]));
        lemma_db_count_le_bound(db.drop_last());
        lemma_rel_card(db.last());
    }
}

/// Databases with the same layout have the same capacity.
pub proof fn lemma_db_bound_same(a: Seq<Relation>, b: Seq<Relation>)
    requires
        a.len() == b.len(),
        forall|q: int|
            0 <= q < a.len() ==> (#[trigger] a[q]).arity == b[q].arity && a[q].domain == b[q].domain,
    ensures
        db_bound(a) == db_bound(b),
    decreases a.len(),
{
    if a.len() > 0 {
        assert(a.drop_last().len() == b.drop_last().len());
        assert(forall|q: int|
            0 <= q < a.drop_last().len() ==> (#[trigger] a.drop_last()[q]).arity
                == b.drop_last()[q].arity && a.drop_last()[q].domain == b.drop_last()[q].domain);
        lemma_db_bound_same(a.drop_last(), b.drop_last());
    }
}

/// Changing one relation changes the count by that relation's growth.
pub proof fn lemma_db_count_update(prev: Seq<Relation>, new: Seq<Relation>, q: int)
    requires
        prev.len() == new.len(),
        0 <= q < prev.len(),
        forall|x: int| 0 <= x < prev.len() && x != q ==> prev[x] == new[x],
    ensures
        db_count(new) - db_count(prev) == new[q].tuples@.len() - prev[q].tuples@.len(),
    decreases prev.len(),
{
    if q == prev.len() - 1 {
        assert(prev.drop_last() =~= new.drop_last());
    } else {
        assert(forall|x: int|
            0 <= x < prev.drop_last().len() && x != q ==> prev.drop_last()[x]
                == new.drop_last()[x]);
        lemma_db_count_update(prev.drop_last(), new.drop_last(), q);
    }
}

/// The count is at least any single relation's size.
pub proof fn lemma_db_count_ge(db: Seq<Relation>, q: int)
    requires
        0 <= q < db.len(),
    ensures
        db_count(db) >= db[q].tuples@.len(),
        db_count(db) >= 0,
    decreases db.len(),
{
    if db.len() > 0 {
        if q == db.len() - 1 {
            lemma_db_count_nonneg(db.drop_last());
        } else {
            lemma_db_count_ge(db.drop_last(), q);
        }
    }
}

/// Empty relations hold no tuples at all.
pub proof fn lemma_db_count_empty(db: Seq<Relation>)
    requires
        forall|q: int| 0 <= q < db.len() ==> (#[trigger] db[q]).tuples@.len() == 0,
    ensures
        db_count(db) == 0,
    decreases db.len(),
{
    if db.len() > 0 {
        lemma_db_count_empty(db.drop_last());
    }
}

/// The count is never negative.
pub proof fn lemma_db_count_nonneg(db: Seq<Relation>)
    ensures
        db_count(db) >= 0,
    decreases db.len(),
{
    if db.len() > 0 {
        lemma_db_count_nonneg(db.drop_last());
    }
}

} // verus!
