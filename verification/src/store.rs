//! The response store: guarded access to the survey document.
//!
//! These are the only operations that mutate a document.  The caller holds
//! the document under exclusive access (one lock over the whole aggregate)
//! and flushes a snapshot after every accepted mutation; both of those live
//! outside this crate, which is why the operations here are plain methods on
//! `Data`.

use vstd::prelude::*;
use vstd::string::*;
use crate::document::{
    AnswerMap, AnswerView, Data, lemma_map_of_domain, lemma_map_of_index, lemma_map_of_push,
    lemma_map_of_update, map_of, unique_keys,
};
use crate::error::DataError;
use crate::strutil::str_eq;

verus! {

// ---------------------------------------------------------------------------
// Renumbering: the compaction of an answer map
// ---------------------------------------------------------------------------

/// The answer map after statement `n` is deleted: the entry at `n` is
/// discarded and every id above `n` moves down by one, keeping its answer.
pub open spec fn compact_keys<V>(m: Map<usize, V>, n: usize) -> Map<usize, V> {
    Map::new(
        |k: usize|
            (k < n && m.contains_key(k)) || (n <= k && k < usize::MAX && m.contains_key(
                (k + 1) as usize,
            )),
        |k: usize| if k < n { m[k] } else { m[(k + 1) as usize] },
    )
}

proof fn lemma_compact_insert_at<V>(m: Map<usize, V>, n: usize, a: V)
    ensures
        compact_keys(m.insert(n, a), n) == compact_keys(m, n),
{
    assert(compact_keys(m.insert(n, a), n) =~= compact_keys(m, n));
}

proof fn lemma_compact_insert_below<V>(m: Map<usize, V>, n: usize, id: usize, a: V)
    requires
        id < n,
    ensures
        compact_keys(m.insert(id, a), n) == compact_keys(m, n).insert(id, a),
{
    assert(compact_keys(m.insert(id, a), n) =~= compact_keys(m, n).insert(id, a));
}

proof fn lemma_compact_insert_above<V>(m: Map<usize, V>, n: usize, id: usize, a: V)
    requires
        n < id,
    ensures
        compact_keys(m.insert(id, a), n) == compact_keys(m, n).insert((id - 1) as usize, a),
{
    assert(compact_keys(m.insert(id, a), n) =~= compact_keys(m, n).insert((id - 1) as usize, a));
}

/// Builds the compacted answer map for a deleted statement `n`.
pub fn compact_answers(src: &AnswerMap, n: usize) -> (r: AnswerMap)
    requires
        src.wf(),
    ensures
        r.wf(),
        r.as_map() == compact_keys(src.as_map(), n),
{
    let len: usize = src.len();
    let mut r = AnswerMap::new();
    let mut i: usize = 0;
    proof {
        assert(src@.take(0) =~= Seq::<(usize, AnswerView)>::empty());
        assert(compact_keys(Map::<usize, AnswerView>::empty(), n) =~= Map::<
            usize,
            AnswerView,
        >::empty());
    }
    while i < len
        invariant
            i <= len,
            len == src@.len(),
            src.wf(),
            r.wf(),
            r.as_map() == compact_keys(map_of(src@.take(i as int)), n),
        decreases len - i,
    {
        let entry = src.entry_at(i);
        let id: usize = entry.0;
        let ghost m = map_of(src@.take(i as int));
        proof {
            assert(src@.take(i + 1).drop_last() =~= src@.take(i as int));
            assert(src@.take(i + 1).last() == src@[i as int]);
            assert(map_of(src@.take(i + 1)) == m.insert(src@[i as int].0, src@[i as int].1));
        }
        if id < n {
            proof {
                lemma_compact_insert_below(m, n, id, src@[i as int].1);
            }
            r.set(id, entry.1.clone());
        } else if id == n {
            proof {
                lemma_compact_insert_at(m, n, src@[i as int].1);
            }
        } else {
            proof {
                lemma_compact_insert_above(m, n, id, src@[i as int].1);
            }
            r.set(id - 1, entry.1.clone());
        }
        i = i + 1;
    }
    proof {
        assert(src@.take(len as int) =~= src@);
    }
    r
}

// ---------------------------------------------------------------------------
// The guarded operations
// ---------------------------------------------------------------------------

impl Data {
    /// The answer sub-map of `list_id`, or `NotFound` when that respondent
    /// was never provisioned.
    pub fn read<'a>(&'a self, list_id: &str) -> (r: Result<&'a AnswerMap, DataError>)
        requires
            self.wf(),
        ensures
            match r {
                Ok(am) => {
                    &&& self@.answers_map().contains_key(list_id@)
                    &&& am.wf()
                    &&& am.as_map() == self@.answers_map()[list_id@]
                },
                Err(e) => {
                    &&& e == DataError::NotFound
                    &&& !self@.answers_map().contains_key(list_id@)
                },
            },
    {
        let ghost ms = self@.answers.map_values(
            |p: (Seq<char>, Seq<(usize, AnswerView)>)| (p.0, map_of(p.1)),
        );
        proof {
            assert(unique_keys(ms)) by {
                assert forall|p: int, q: int| 0 <= p < q < ms.len() implies (#[trigger] ms[p]).0
                    != (#[trigger] ms[q]).0 by {
                    assert(ms[p].0 == self@.answers[p].0);
                    assert(ms[q].0 == self@.answers[q].0);
                }
            }
        }
        let n: usize = self.answers.len();
        let mut i: usize = 0;
        while i < n
            invariant
                n == self@.answers.len(),
                i <= n,
                self.wf(),
                ms == self@.answers.map_values(
                    |p: (Seq<char>, Seq<(usize, AnswerView)>)| (p.0, map_of(p.1)),
                ),
                unique_keys(ms),
                forall|j: int| 0 <= j < i ==> (#[trigger] ms[j]).0 != list_id@,
            decreases n - i,
        {
            if str_eq(self.answers[i].0.as_str(), list_id) {
                proof {
                    assert(ms[i as int].0 == list_id@);
                    lemma_map_of_index(ms, i as int);
                    assert(self@.answers[i as int].1 == self.answers[i as int].1@);
                }
                return Ok(&self.answers[i].1);
            }
            proof {
                assert(ms[i as int].0 == self@.answers[i as int].0);
            }
            i = i + 1;
        }
        proof {
            lemma_map_of_domain(ms);
        }
        Err(DataError::NotFound)
    }

    /// Replaces the whole answer sub-map of `list_id`, provisioning the
    /// respondent if it had none yet.  Nothing else of the document moves.
    pub fn write(&mut self, list_id: String, answers: AnswerMap)
        requires
            old(self).wf(),
            answers.wf(),
        ensures
            final(self).wf(),
            final(self)@.theses == old(self)@.theses,
            final(self)@.lists == old(self)@.lists,
            final(self)@.answers_map() == old(self)@.answers_map().insert(
                list_id@,
                answers.as_map(),
            ),
    {
        let ghost oms = old(self)@.answers.map_values(
            |p: (Seq<char>, Seq<(usize, AnswerView)>)| (p.0, map_of(p.1)),
        );
        proof {
            assert(unique_keys(oms)) by {
                assert forall|p: int, q: int| 0 <= p < q < oms.len() implies (#[trigger] oms[p]).0
                    != (#[trigger] oms[q]).0 by {
                    assert(oms[p].0 == old(self)@.answers[p].0);
                    assert(oms[q].0 == old(self)@.answers[q].0);
                }
            }
        }
        let n: usize = self.answers.len();
        let mut i: usize = 0;
        while i < n
            invariant
                *self == *old(self),
                n == self@.answers.len(),
                i <= n,
                self.wf(),
                answers.wf(),
                oms == self@.answers.map_values(
                    |p: (Seq<char>, Seq<(usize, AnswerView)>)| (p.0, map_of(p.1)),
                ),
                unique_keys(oms),
                forall|j: int| 0 <= j < i ==> (#[trigger] oms[j]).0 != list_id@,
            decreases n - i,
        {
            if str_eq(self.answers[i].0.as_str(), list_id.as_str()) {
                proof {
                    assert(oms[i as int].0 == list_id@);
                    lemma_map_of_update(oms, i as int, answers.as_map());
                }
                self.answers[i].1 = answers;
                proof {
                    let nms = self@.answers.map_values(
                        |p: (Seq<char>, Seq<(usize, AnswerView)>)| (p.0, map_of(p.1)),
                    );
                    assert(self@.answers =~= old(self)@.answers.update(
                        i as int,
                        (old(self)@.answers[i as int].0, answers@),
                    ));
                    assert(nms =~= oms.update(i as int, (oms[i as int].0, answers.as_map())));
                    assert(final(self)@.answers_map() == map_of(nms));
                    assert forall|p: int, q: int|
                        0 <= p < q < self@.answers.len() implies (#[trigger] self@.answers[p]).0
                        != (#[trigger] self@.answers[q]).0 by {
                        assert(self@.answers[p].0 == old(self)@.answers[p].0);
                        assert(self@.answers[q].0 == old(self)@.answers[q].0);
                    }
                }
                return ;
            }
            proof {
                assert(oms[i as int].0 == self@.answers[i as int].0);
            }
            i = i + 1;
        }
        proof {
            lemma_map_of_domain(oms);
            lemma_map_of_push(oms, list_id@, answers.as_map());
        }
        self.answers.push((list_id, answers));
        proof {
            let nms = self@.answers.map_values(
                |p: (Seq<char>, Seq<(usize, AnswerView)>)| (p.0, map_of(p.1)),
            );
            assert(self@.answers =~= old(self)@.answers.push((list_id@, answers@)));
            assert(nms =~= oms.push((list_id@, answers.as_map())));
            assert forall|p: int, q: int|
                0 <= p < q < self@.answers.len() implies (#[trigger] self@.answers[p]).0
                != (#[trigger] self@.answers[q]).0 by {
                if q == self@.answers.len() - 1 {
                    assert(self@.answers[p] == old(self)@.answers[p]);
                    assert(!map_of(oms).contains_key(self@.answers[q].0));
                    lemma_map_of_index(oms, p);
                } else {
                    assert(self@.answers[p] == old(self)@.answers[p]);
                    assert(self@.answers[q] == old(self)@.answers[q]);
                }
            }
        }
    }

    /// Deletes statement `n` and renumbers: every statement above `n` moves
    /// down by one, and every respondent's answers move with their
    /// statements.  `NotFound` when `n` is beyond the last statement (which
    /// covers the empty document).  The whole multi-map move is one in-memory
    /// transform; ids are positional here, so no stored id can fail to
    /// parse mid-way.  The caller persists the result only after this
    /// returns, which keeps the stored document free of half-renumbered
    /// states.
    pub fn delete(&mut self, n: usize) -> (r: Result<(), DataError>)
        requires
            old(self).wf(),
        ensures
            final(self).wf(),
            match r {
                Ok(u) => {
                    &&& n < old(self)@.theses.len()
                    &&& final(self)@.theses == old(self)@.theses.remove(n as int)
                    &&& final(self)@.lists == old(self)@.lists
                    &&& final(self)@.answers.len() == old(self)@.answers.len()
                    &&& forall|i: int|
                        0 <= i < old(self)@.answers.len() ==> ((#[trigger] final(self)@.answers[i]).0
                            == old(self)@.answers[i].0 && map_of(final(self)@.answers[i].1)
                            == compact_keys(map_of(old(self)@.answers[i].1), n))
                },
                Err(e) => {
                    &&& e == DataError::NotFound
                    &&& n >= old(self)@.theses.len()
                    &&& *final(self) == *old(self)
                },
            },
    {
        if n >= self.theses.len() {
            return Err(DataError::NotFound);
        }
        self.theses.remove(n);
        proof {
            assert(self@.theses =~= old(self)@.theses.remove(n as int));
            assert(self@.answers =~= old(self)@.answers);
            assert(self@.lists =~= old(self)@.lists);
        }
        let cnt: usize = self.answers.len();
        let mut i: usize = 0;
        while i < cnt
            invariant
                cnt == self@.answers.len(),
                i <= cnt,
                old(self).wf(),
                self@.theses == old(self)@.theses.remove(n as int),
                self@.lists == old(self)@.lists,
                self@.answers.len() == old(self)@.answers.len(),
                forall|j: int|
                    i <= j < cnt ==> (#[trigger] self@.answers[j]) == old(self)@.answers[j],
                forall|j: int|
                    0 <= j < i ==> (#[trigger] self@.answers[j]).0 == old(self)@.answers[j].0
                        && unique_keys(self@.answers[j].1) && map_of(self@.answers[j].1)
                        == compact_keys(map_of(old(self)@.answers[j].1), n),
            decreases cnt - i,
        {
            let ghost before = self@.answers;
            proof {
                assert(old(self)@.wf());
                assert(unique_keys(old(self)@.answers[i as int].1));
                assert(self.answers[i as int].1@ == self@.answers[i as int].1);
            }
            let compacted = compact_answers(&self.answers[i].1, n);
            self.answers[i].1 = compacted;
            proof {
                assert(self@.answers =~= before.update(
                    i as int,
                    (before[i as int].0, compacted@),
                ));
            }
            i = i + 1;
        }
        proof {
            assert forall|p: int, q: int|
                0 <= p < q < self@.answers.len() implies (#[trigger] self@.answers[p]).0
                != (#[trigger] self@.answers[q]).0 by {
                assert(self@.answers[p].0 == old(self)@.answers[p].0);
                assert(self@.answers[q].0 == old(self)@.answers[q].0);
            }
            assert(unique_keys(self@.lists));
        }
        Ok(())
    }
}

// ---------------------------------------------------------------------------
// Laws of the store
// ---------------------------------------------------------------------------

/// After `write(r, a)`, a read of `r` yields exactly `a`: replacement, not
/// merge — no stale entry of an earlier sub-map survives.
pub proof fn lemma_write_then_read(
    m: Map<Seq<char>, Map<usize, AnswerView>>,
    r: Seq<char>,
    a: Map<usize, AnswerView>,
)
    ensures
        m.insert(r, a).contains_key(r),
        m.insert(r, a)[r] == a,
{
}

/// Writes against different respondents commute and land independently:
/// each one's answers are fully recorded whatever the order.
pub proof fn lemma_writes_independent(
    m: Map<Seq<char>, Map<usize, AnswerView>>,
    r1: Seq<char>,
    a1: Map<usize, AnswerView>,
    r2: Seq<char>,
    a2: Map<usize, AnswerView>,
)
    requires
        r1 != r2,
    ensures
        m.insert(r1, a1).insert(r2, a2)[r1] == a1,
        m.insert(r1, a1).insert(r2, a2)[r2] == a2,
        m.insert(r1, a1).insert(r2, a2) == m.insert(r2, a2).insert(r1, a1),
{
    assert(m.insert(r1, a1).insert(r2, a2) =~= m.insert(r2, a2).insert(r1, a1));
}

} // verus!
