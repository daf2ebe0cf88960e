//! The trie table: a compact, prefix-sharing encoding of a relation's tuples.
//!
//! Consecutive tuples usually share a column prefix; each stored record keeps
//! only the length of the prefix it shares with its predecessor and the
//! remaining columns.  Decoding walks the records once, in order, rebuilding
//! each tuple from the previous one — a lazy, one-shot record stream.

use vstd::prelude::*;

verus! {

/// One encoded record: the number of leading columns shared with the
/// previous record, and the remaining columns.
pub struct TrieRecord {
    pub lcp: usize,
    pub tail: Vec<usize>,
}

/// The tuples an encoded record sequence denotes: each record re-uses the
/// first `lcp` columns of its predecessor and appends its own tail.
pub open spec fn decode_recs(recs: Seq<TrieRecord>) -> Seq<Seq<usize>>
    decreases recs.len(),
{
    if recs.len() == 0 {
        Seq::<Seq<usize>>::empty()
    } else {
        let prev = decode_recs(recs.drop_last());
        let prior: Seq<usize> = if prev.len() == 0 {
            Seq::<usize>::empty()
        } else {
            prev.last()
        };
        prev.push(prior.take(recs.last().lcp as int) + recs.last().tail@)
    }
}

/// Well-formed encoding: every record fills the arity exactly, the first
/// record shares nothing, and every stored column id lies below `d`.
pub open spec fn recs_wf(recs: Seq<TrieRecord>, arity: nat, d: nat) -> bool {
    forall|i: int|
        0 <= i < recs.len() ==> {
            &&& (#[trigger] recs[i]).lcp + recs[i].tail@.len() == arity
            &&& (i == 0 ==> recs[i].lcp == 0)
            &&& forall|k: int| 0 <= k < recs[i].tail@.len() ==> #[trigger] recs[i].tail@[k] < d
        }
}

/// Decoding yields one tuple per record.
pub proof fn lemma_decode_len(recs: Seq<TrieRecord>)
    ensures
        decode_recs(recs).len() == recs.len(),
    decreases recs.len(),
{
    if recs.len() > 0 {
        lemma_decode_len(recs.drop_last());
    }
}

/// Every decoded tuple of a well-formed encoding has the table's arity and
/// keeps its column ids below `d`.
pub proof fn lemma_decode_wf(recs: Seq<TrieRecord>, arity: nat, d: nat)
    requires
        recs_wf(recs, arity, d),
    ensures
        decode_recs(recs).len() == recs.len(),
        forall|i: int|
            0 <= i < recs.len() ==> (#[trigger] decode_recs(recs)[i]).len() == arity && forall|
                k: int,
            | 0 <= k < arity ==> #[trigger] decode_recs(recs)[i][k] < d,
    decreases recs.len(),
{
    if recs.len() > 0 {
        lemma_decode_wf(recs.drop_last(), arity, d);
    }
}

/// The decoded tuple at `i`, written against its predecessor.
pub proof fn lemma_decode_index(recs: Seq<TrieRecord>, i: int)
    requires
        0 <= i < recs.len(),
    ensures
        decode_recs(recs)[i] == {
            let prior: Seq<usize> = if i == 0 {
                Seq::<usize>::empty()
            } else {
                decode_recs(recs)[i - 1]
            };
            prior.take(recs[i].lcp as int) + recs[i].tail@
        },
    decreases recs.len(),
{
    lemma_decode_len(recs);
    lemma_decode_len(recs.drop_last());
    if i < recs.len() - 1 {
        lemma_decode_index(recs.drop_last(), i);
    }
}

/// The materialized extension of one predicate: its tuples in the trie
/// encoding.
pub struct TrieTable {
    /// Number of columns of every tuple.
    pub arity: usize,
    /// Exclusive upper bound of every column id (the dictionary size).
    pub domain: usize,
    /// The encoded records.
    pub recs: Vec<TrieRecord>,
}

impl TrieTable {
    /// The tuples the table holds, in iteration order.
    pub open spec fn records(self) -> Seq<Seq<usize>> {
        decode_recs(self.recs@)
    }

    /// A valid table: well-formed encoding and no duplicate tuple.
    pub open spec fn wf(self) -> bool {
        &&& recs_wf(self.recs@, self.arity as nat, self.domain as nat)
        &&& forall|i: int, j: int|
            0 <= i < j < self.records().len() ==> self.records()[i] != self.records()[j]
    }

    /// How many records the table holds.
    pub fn len(&self) -> (r: usize)
        ensures
            r == self.records().len(),
    {
        proof {
            lemma_decode_len(self.recs@);
        }
        self.recs.len()
    }

    /// Encodes a list of distinct tuples into a trie table holding exactly
    /// those tuples, in the same order.
    #[verifier::loop_isolation(false)]
    pub fn from_tuples(tuples: &Vec<Vec<usize>>, arity: usize, domain: usize) -> (t: TrieTable)
        requires
            forall|i: int|
                0 <= i < tuples@.len() ==> (#[trigger] tuples@[i])@.len() == arity && forall|k: int|
                    0 <= k < arity ==> #[trigger] tuples@[i]@[k] < domain,
            forall|i: int, j: int|
                0 <= i < j < tuples@.len() ==> tuples.deep_view()[i] != tuples.deep_view()[j],
        ensures
            t.wf(),
            t.arity == arity,
            t.domain == domain,
            t.records() == tuples.deep_view(),
    {
        let mut recs: Vec<TrieRecord> = Vec::new();
        let mut i: usize = 0;
        while i < tuples.len()
            invariant
                i <= tuples@.len(),
                recs@.len() == i,
                recs_wf(recs@, arity as nat, domain as nat),
                decode_recs(recs@) =~= tuples.deep_view().take(i as int),
            decreases tuples@.len() - i,
        {
            let cur = &tuples[i];
            let mut lcp: usize = 0;
            if i > 0 {
                let prev = &tuples[i - 1];
                while lcp < arity && prev[lcp] == cur[lcp]
                    invariant
                        lcp <= arity,
                        forall|k: int| 0 <= k < lcp ==> prev@[k] == cur@[k],
                    decreases arity - lcp,
                {
                    lcp += 1;
                }
            }
            let mut tail: Vec<usize> = Vec::new();
            let mut k: usize = lcp;
            while k < arity
                invariant
                    lcp <= k <= arity,
                    tail@ =~= cur@.subrange(lcp as int, k as int),
                decreases arity - k,
            {
                tail.push(cur[k]);
                k += 1;
            }
            let ghost old_recs = recs@;
            recs.push(TrieRecord { lcp, tail });
            proof {
                assert(recs@.drop_last() =~= old_recs);
                lemma_decode_len(old_recs);
                let prev_decoded = decode_recs(old_recs);
                let prior: Seq<usize> = if prev_decoded.len() == 0 {
                    Seq::<usize>::empty()
                } else {
                    prev_decoded.last()
                };
                if i > 0 {
                    assert(prior =~= tuples.deep_view()[i - 1]);
                    assert(prior.take(lcp as int) =~= cur@.take(lcp as int));
                }
                assert(cur@.len() == arity);
                assert(lcp <= arity);
                let lhs = prior.take(lcp as int) + cur@.subrange(lcp as int, arity as int);
                assert(lhs.len() == arity);
                assert forall|x: int| 0 <= x < arity implies lhs[x] == cur@[x] by {
                    if x < lcp {
                        assert(lhs[x] == prior.take(lcp as int)[x]);
                        assert(prior.take(lcp as int)[x] == cur@.take(lcp as int)[x]);
                    } else {
                        assert(lhs[x] == cur@.subrange(lcp as int, arity as int)[x - lcp]);
                    }
                }
                assert(lhs =~= cur@);
                assert(recs@.last().tail@ =~= cur@.subrange(lcp as int, arity as int));
                assert(recs@.last().lcp == lcp);
                assert(decode_recs(recs@) == prev_decoded.push(
                    prior.take(recs@.last().lcp as int) + recs@.last().tail@,
                ));
                assert(prior.take(recs@.last().lcp as int) + recs@.last().tail@ == lhs);
                assert(tuples.deep_view()[i as int] =~= cur@);
                assert(decode_recs(recs@) =~= tuples.deep_view().take(i + 1));
            }
            i += 1;
        }
        proof {
            assert(tuples.deep_view().take(tuples@.len() as int) =~= tuples.deep_view());
        }
        TrieTable { arity, domain, recs }
    }
}

/// A tuple rendered as a record row: each column id replaced by its
/// dictionary value.
pub open spec fn row_of(t: Seq<usize>, dict: Seq<Seq<u8>>) -> Seq<Seq<u8>> {
    t.map_values(|c: usize| dict[c as int])
}

/// Copies a byte vector.
fn copy_bytes(b: &Vec<u8>) -> (r: Vec<u8>)
    ensures
        r@ == b@,
{
    let mut r: Vec<u8> = Vec::new();
    let mut i: usize = 0;
    while i < b.len()
        invariant
            i <= b@.len(),
            r@ =~= b@.take(i as int),
        decreases b@.len() - i,
    {
        r.push(b[i]);
        i += 1;
    }
    proof {
        assert(b@.take(b@.len() as int) =~= b@);
    }
    r
}

/// A lazy, finite, one-shot stream of a trie table's records, decoded to
/// dictionary values.  Exhaustion is signalled by `None`, never conflated
/// with an error.
pub struct TrieSerializer {
    /// Number of columns of every record.
    pub arity: usize,
    /// Exclusive upper bound of every column id.
    pub domain: usize,
    /// The encoded records.
    pub recs: Vec<TrieRecord>,
    /// The constant dictionary the column ids index into.
    pub dict: Vec<Vec<u8>>,
    /// How many records were already handed out.
    pub pos: usize,
    /// The previously decoded tuple.
    pub cur: Vec<usize>,
}

impl TrieSerializer {
    /// The tuples of the underlying table, in iteration order.
    pub open spec fn tuples(self) -> Seq<Seq<usize>> {
        decode_recs(self.recs@)
    }

    /// The decoded rows the stream yields, in order.
    pub open spec fn rows(self) -> Seq<Seq<Seq<u8>>> {
        self.tuples().map_values(|t: Seq<usize>| row_of(t, self.dict.deep_view()))
    }

    /// A valid stream: well-formed encoding, distinct tuples, a dictionary
    /// that covers the domain without duplicate entries, and a cursor that
    /// remembers the last decoded tuple.
    pub open spec fn wf(self) -> bool {
        &&& recs_wf(self.recs@, self.arity as nat, self.domain as nat)
        &&& forall|i: int, j: int|
            0 <= i < j < self.tuples().len() ==> self.tuples()[i] != self.tuples()[j]
        &&& self.domain <= self.dict@.len()
        &&& forall|i: int, j: int|
            0 <= i < j < self.dict@.len() ==> self.dict.deep_view()[i] != self.dict.deep_view()[j]
        &&& self.pos <= self.recs@.len()
        &&& self.pos > 0 ==> self.cur@ == self.tuples()[self.pos - 1]
    }

    /// The next record of the stream, or `None` once it is exhausted.
    #[verifier::loop_isolation(false)]
    pub fn next_record(&mut self) -> (r: Option<Vec<Vec<u8>>>)
        requires
            old(self).wf(),
        ensures
            final(self).wf(),
            final(self).recs == old(self).recs,
            final(self).dict == old(self).dict,
            final(self).arity == old(self).arity,
            final(self).domain == old(self).domain,
            old(self).pos == old(self).tuples().len() ==> r is None && final(self).pos == old(
                self,
            ).pos,
            old(self).pos < old(self).tuples().len() ==> final(self).pos == old(self).pos + 1
                && match r {
                Some(row) => row.deep_view() == old(self).rows()[old(self).pos as int],
                None => false,
            },
    {
        proof {
            lemma_decode_wf(self.recs@, self.arity as nat, self.domain as nat);
        }
        if self.pos == self.recs.len() {
            return None;
        }
        proof {
            lemma_decode_index(self.recs@, self.pos as int);
        }
        let ghost t = self.tuples()[self.pos as int];
        let ghost pos0 = self.pos;
        let rec_lcp = self.recs[self.pos].lcp;
        proof {
            lemma_decode_len(self.recs@);
            lemma_decode_wf(self.recs@, self.arity as nat, self.domain as nat);
            if self.pos > 0 {
                assert(self.cur@.len() == self.arity);
            }
        }
        self.cur.truncate(rec_lcp);
        proof {
            let prior: Seq<usize> = if pos0 == 0 {
                Seq::<usize>::empty()
            } else {
                decode_recs(self.recs@)[pos0 - 1]
            };
            assert(t == prior.take(rec_lcp as int) + self.recs@[pos0 as int].tail@);
            assert(self.cur@ =~= t.take(rec_lcp as int));
        }
        let mut k: usize = 0;
        let tail_len = self.recs[self.pos].tail.len();
        while k < tail_len
            invariant
                self.pos == pos0,
                self.recs == old(self).recs,
                self.dict == old(self).dict,
                self.arity == old(self).arity,
                self.domain == old(self).domain,
                self.pos < self.recs@.len(),
                tail_len == self.recs@[pos0 as int].tail@.len(),
                rec_lcp == self.recs@[pos0 as int].lcp,
                t == self.tuples()[pos0 as int],
                t == t.take(rec_lcp as int) + self.recs@[pos0 as int].tail@,
                rec_lcp + tail_len == self.arity,
                t.len() == self.arity,
                k <= tail_len,
                self.cur@ =~= t.take(rec_lcp as int + k as int),
            decreases tail_len - k,
        {
            let v = self.recs[self.pos].tail[k];
            self.cur.push(v);
            k += 1;
            proof {
                assert(self.cur@ =~= t.take(rec_lcp as int + k as int));
            }
        }
        proof {
            assert(self.cur@ =~= t);
        }
        let mut row: Vec<Vec<u8>> = Vec::new();
        let mut m: usize = 0;
        while m < self.cur.len()
            invariant
                m <= self.cur@.len(),
                self.cur@ == t,
                row.deep_view() == row_of(t.take(m as int), self.dict.deep_view()),
            decreases self.cur@.len() - m,
        {
            let c = self.cur[m];
            let bytes = copy_bytes(&self.dict[c]);
            let ghost prev_rows = row.deep_view();
            row.push(bytes);
            m += 1;
            proof {
                let target = row_of(t.take(m as int), self.dict.deep_view());
                assert(target.len() == m);
                assert forall|x: int| 0 <= x < m implies row.deep_view()[x] == target[x] by {
                    assert(target[x] == self.dict.deep_view()[t.take(m as int)[x] as int]);
                    if x < m - 1 {
                        assert(row.deep_view()[x] == prev_rows[x]);
                        assert(prev_rows[x] == row_of(t.take(m - 1), self.dict.deep_view())[x]);
                        assert(t.take(m - 1)[x] == t.take(m as int)[x]);
                    } else {
                        assert(row.deep_view()[x] == bytes.deep_view());
                        assert(bytes.deep_view() =~= self.dict.deep_view()[c as int]);
                        assert(t.take(m as int)[x] == t[x] == c);
                    }
                }
                assert(row.deep_view() =~= target);
            }
        }
        proof {
            assert(t.take(t.len() as int) =~= t);
            assert(row.deep_view() == row_of(t, self.dict.deep_view()));
        }
        self.pos = self.pos + 1;
        Some(row)
    }
}

/// No duplicates: the record stream of a valid serializer yields each
/// derived tuple's row exactly once — no two positions carry the same row.
pub proof fn lemma_no_duplicate_rows(s: TrieSerializer)
    requires
        s.wf(),
    ensures
        forall|i: int, j: int| 0 <= i < j < s.rows().len() ==> s.rows()[i] != s.rows()[j],
{
    lemma_decode_wf(s.recs@, s.arity as nat, s.domain as nat);
    assert forall|i: int, j: int| 0 <= i < j < s.rows().len() implies s.rows()[i] != s.rows()[j] by {
        let t1 = s.tuples()[i];
        let t2 = s.tuples()[j];
        assert(t1 != t2);
        assert(t1.len() == s.arity && t2.len() == s.arity);
        if s.rows()[i] == s.rows()[j] {
            assert(!(t1 =~= t2));
            let k = choose|k: int| 0 <= k < t1.len() && t1[k] != t2[k];
            assert(row_of(t1, s.dict.deep_view())[k] == row_of(t2, s.dict.deep_view())[k]);
            assert(s.dict.deep_view()[t1[k] as int] == s.dict.deep_view()[t2[k] as int]);
        }
    }
}

} // verus!
