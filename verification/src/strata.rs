//! Stratification: assigning each predicate a stratum so that every positive
//! body dependency stays within or below its head's stratum and every negated
//! dependency lies strictly below.  Processing strata in ascending order then
//! evaluates every negated predicate only after it is final.
//!
//! The computation is a least-fixpoint relaxation.  On success the returned
//! assignment provably satisfies every constraint.  On failure no assignment
//! whose strata all lie below the predicate count satisfies them (a standard
//! argument shows that a stratifiable program always has such an assignment,
//! so failure means the program is unstratifiable).

use vstd::prelude::*;

use crate::model::{Program, rule_wf};
use crate::EngineError;

verus! {

/// The constraint that body literal `j` of rule `i` puts on a stratum
/// assignment `st`.
pub open spec fn lit_ok(p: &Program, st: Seq<usize>, i: int, j: int) -> bool {
    let r = p.rules@[i];
    let l = r.body@[j];
    if l.positive {
        st[l.atom.pred as int] <= st[r.head.pred as int]
    } else {
        st[l.atom.pred as int] < st[r.head.pred as int]
    }
}

/// A stratum assignment is valid for the program: one stratum per predicate,
/// and every rule's body constraints hold.
pub open spec fn strata_ok(p: &Program, st: Seq<usize>) -> bool {
    &&& st.len() == p.preds@.len()
    &&& forall|i: int, j: int|
        0 <= i < p.rules@.len() && 0 <= j < p.rules@[i].body@.len() ==> #[trigger] lit_ok(
            p,
            st,
            i,
            j,
        )
}

/// `st` is a pointwise lower bound of `a`.
pub open spec fn dominated_by(st: Seq<usize>, a: Seq<usize>) -> bool {
    forall|q: int| 0 <= q < st.len() ==> #[trigger] st[q] <= a[q]
}

/// `st` lies pointwise below every valid stratum assignment.
pub open spec fn stratum_lower_bound(p: &Program, st: Seq<usize>) -> bool {
    forall|a: Seq<usize>| #[trigger] strata_ok(p, a) ==> dominated_by(st, a)
}

/// Some valid assignment keeps every stratum below the predicate count.
pub open spec fn bounded_stratification_exists(p: &Program) -> bool {
    exists|a: Seq<usize>|
        #[trigger] strata_ok(p, a) && forall|q: int| 0 <= q < a.len() ==> a[q] < p.preds@.len()
}

/// The sum of a sequence of strata.
pub open spec fn seq_sum(s: Seq<usize>) -> int
    decreases s.len(),
{
    if s.len() == 0 {
        0
    } else {
        seq_sum(s.drop_last()) + s.last()
    }
}

proof fn lemma_seq_sum_update(s: Seq<usize>, q: int, v: usize)
    requires
        0 <= q < s.len(),
    ensures
        seq_sum(s.update(q, v)) == seq_sum(s) + v - s[q],
    decreases s.len(),
{
    if q == s.len() - 1 {
        assert(s.update(q, v).drop_last() =~= s.drop_last());
    } else {
        assert(s.update(q, v).drop_last() =~= s.drop_last().update(q, v));
        lemma_seq_sum_update(s.drop_last(), q, v);
    }
}

proof fn lemma_seq_sum_bound(s: Seq<usize>, b: int)
    requires
        forall|q: int| 0 <= q < s.len() ==> #[trigger] s[q] <= b,
        b >= 0,
    ensures
        seq_sum(s) <= s.len() * b,
    decreases s.len(),
{
    if s.len() > 0 {
        lemma_seq_sum_bound(s.drop_last(), b);
        assert((s.len() - 1) * b + b == s.len() * b) by (nonlinear_arith);
    }
}

/// Computes a stratum assignment for the program, or reports that none
/// exists whose strata all lie below the predicate count.
#[verifier::loop_isolation(false)]
pub fn stratify(p: &Program) -> (r: Result<Vec<usize>, EngineError>)
    requires
        forall|i: int| 0 <= i < p.rules@.len() ==> rule_wf(p, #[trigger] p.rules@[i]),
    ensures
        match r {
            Ok(st) => {
                &&& strata_ok(p, st@)
                &&& st@.len() == p.preds@.len()
                &&& forall|q: int| 0 <= q < st@.len() ==> #[trigger] st@[q] <= p.preds@.len()
            },
            Err(e) => e == EngineError::UnstratifiableProgramError
                && !bounded_stratification_exists(p),
        },
{
    let n = p.preds.len();
    let mut st: Vec<usize> = Vec::new();
    while st.len() < n
        invariant
            st@.len() <= n,
            forall|q: int| 0 <= q < st@.len() ==> #[trigger] st@[q] == 0,
        decreases n - st@.len(),
    {
        st.push(0);
    }
    proof {
        assert forall|a: Seq<usize>| #[trigger] strata_ok(p, a) implies dominated_by(st@, a) by {}
    }
    loop
        invariant
            st@.len() == n,
            n == p.preds@.len(),
            forall|q: int| 0 <= q < st@.len() ==> #[trigger] st@[q] < n || st@[q] == 0,
            stratum_lower_bound(p, st@),
        decreases (n as int) * (n as int) - seq_sum(st@),
    {
        proof {
            lemma_seq_sum_bound(st@, if n == 0 { 0 } else { n - 1 });
            if n > 0 {
                assert((n as int) * ((n as int) - 1) < (n as int) * (n as int)) by (nonlinear_arith)
                    requires n > 0;
            }
        }
        let ghost st0 = st@;
        let mut changed = false;
        let mut i: usize = 0;
        while i < p.rules.len()
            invariant
                st@.len() == n,
                forall|q: int| 0 <= q < st@.len() ==> #[trigger] st@[q] < n || st@[q] == 0,
                stratum_lower_bound(p, st@),
                !changed ==> st@ == st0,
                changed ==> n > 0,
                changed ==> seq_sum(st@) > seq_sum(st0),
                seq_sum(st@) >= seq_sum(st0),
                !changed ==> forall|i2: int, j2: int|
                    0 <= i2 < i && 0 <= j2 < p.rules@[i2].body@.len() ==> #[trigger] lit_ok(
                        p,
                        st@,
                        i2,
                        j2,
                    ),
            decreases p.rules@.len() - i,
        {
            let rule = &p.rules[i];
            let h = rule.head.pred;
            let mut j: usize = 0;
            while j < rule.body.len()
                invariant
                    st@.len() == n,
                    forall|q: int| 0 <= q < st@.len() ==> #[trigger] st@[q] < n || st@[q] == 0,
                    stratum_lower_bound(p, st@),
                    !changed ==> st@ == st0,
                    changed ==> seq_sum(st@) > seq_sum(st0),
                    seq_sum(st@) >= seq_sum(st0),
                    !changed ==> forall|i2: int, j2: int|
                        0 <= i2 < i && 0 <= j2 < p.rules@[i2].body@.len() ==> #[trigger] lit_ok(
                            p,
                            st@,
                            i2,
                            j2,
                        ),
                    !changed ==> forall|j2: int|
                        0 <= j2 < j ==> #[trigger] lit_ok(p, st@, i as int, j2),
                decreases rule.body@.len() - j,
            {
                let lit = &rule.body[j];
                let b = lit.atom.pred;
                let delta: usize = if lit.positive {
                    0
                } else {
                    1
                };
                assert(st@[b as int] < n || st@[b as int] == 0);
                let need = st[b] + delta;
                if st[h] < need {
                    if need >= n {
                        proof {
                            assert forall|a: Seq<usize>|
                                #[trigger] strata_ok(p, a) implies !(forall|q: int|
                                0 <= q < a.len() ==> a[q] < p.preds@.len()) by {
                                assert(dominated_by(st@, a));
                                assert(lit_ok(p, a, i as int, j as int));
                                assert(st@[b as int] <= a[b as int]);
                                assert(a[h as int] >= need >= n);
                            }
                            assert(!bounded_stratification_exists(p));
                        }
                        return Err(EngineError::UnstratifiableProgramError);
                    }
                    proof {
                        let stv = st@;
                        assert forall|a: Seq<usize>| #[trigger] strata_ok(p, a) implies dominated_by(
                            stv.update(h as int, need),
                            a,
                        ) by {
                            assert(dominated_by(stv, a));
                            assert(lit_ok(p, a, i as int, j as int));
                            assert(stv[b as int] <= a[b as int]);
                            assert(a[h as int] >= need);
                            assert forall|q: int|
                                0 <= q < stv.update(h as int, need).len() implies #[trigger] stv.update(
                                h as int,
                                need,
                            )[q] <= a[q] by {
                                if q != h as int {
                                    assert(stv[q] <= a[q]);
                                }
                            }
                        }
                        lemma_seq_sum_update(st@, h as int, need);
                    }
                    st.set(h, need);
                    changed = true;
                }
                j += 1;
            }
            i += 1;
        }
        if !changed {
            proof {
                assert forall|i2: int, j2: int|
                    0 <= i2 < p.rules@.len() && 0 <= j2
                        < p.rules@[i2].body@.len() implies #[trigger] lit_ok(p, st@, i2, j2) by {}
                assert(strata_ok(p, st@));
            }
            return Ok(st);
        }
        proof {
            lemma_seq_sum_bound(st@, (n - 1) as int);
            assert((n as int) * ((n as int) - 1) < (n as int) * (n as int)) by (nonlinear_arith)
                requires n > 0;
        }
    }
}

} // verus!
