//! The import converter: builds a survey document from the upstream export —
//! a question list and a party map.  Statement ids are assigned by question
//! order; each party's numeric answer codes and comments become that
//! respondent's answer sub-map.  Reading and parsing the export files is the
//! caller's business; this is the whole transformation.

use vstd::prelude::*;
use vstd::string::*;
use crate::document::{Answer, AnswerMap, AnswerView, Data, List, Stance, Thesis, map_of, unique_keys};
use crate::error::DataError;
use crate::strutil::str_eq;

verus! {

/// One party of the upstream export.
pub struct Party {
    pub shortname: String,
    pub longname: String,
    pub logo: String,
}

pub struct PartyView {
    pub shortname: Seq<char>,
    pub longname: Seq<char>,
    pub logo: Seq<char>,
}

impl View for Party {
    type V = PartyView;

    open spec fn view(&self) -> PartyView {
        PartyView { shortname: self.shortname@, longname: self.longname@, logo: self.logo@ }
    }
}

/// One question of the upstream export: its texts, and per party key a
/// numeric answer code and a comment.
pub struct Question {
    pub title: String,
    pub question: String,
    pub annotation: String,
    pub style: String,
    pub answers: Vec<(String, u32)>,
    pub comments: Vec<(String, String)>,
}

pub struct QuestionView {
    pub title: Seq<char>,
    pub question: Seq<char>,
    pub annotation: Seq<char>,
    pub style: Seq<char>,
    pub answers: Seq<(Seq<char>, u32)>,
    pub comments: Seq<(Seq<char>, Seq<char>)>,
}

impl View for Question {
    type V = QuestionView;

    open spec fn view(&self) -> QuestionView {
        QuestionView {
            title: self.title@,
            question: self.question@,
            annotation: self.annotation@,
            style: self.style@,
            answers: self.answers@.map_values(|p: (String, u32)| (p.0@, p.1)),
            comments: self.comments@.map_values(|p: (String, String)| (p.0@, p.1@)),
        }
    }
}

/// The first value a key/value sequence holds under `k`, if any.
pub open spec fn lookup_first<V>(s: Seq<(Seq<char>, V)>, k: Seq<char>) -> Option<V>
    decreases s.len(),
{
    if s.len() == 0 {
        None
    } else if s[0].0 == k {
        Some(s[0].1)
    } else {
        lookup_first(s.drop_first(), k)
    }
}

/// The stance an upstream numeric answer code stands for.
pub open spec fn stance_of_num(v: u32) -> Option<Stance> {
    if v == 0 {
        Some(Stance::Agree)
    } else if v == 1 {
        Some(Stance::Neutral)
    } else if v == 2 {
        Some(Stance::Oppose)
    } else {
        None
    }
}

/// Whether a question records a valid answer code and a comment for `key`.
pub open spec fn question_covers(q: QuestionView, key: Seq<char>) -> bool {
    &&& (match lookup_first(q.answers, key) {
        Some(v) => stance_of_num(v) is Some,
        None => false,
    })
    &&& lookup_first(q.comments, key) is Some
}

/// Whether every question covers every party: the condition under which the
/// import succeeds.
pub open spec fn convert_ok(qs: Seq<QuestionView>, ps: Seq<(Seq<char>, PartyView)>) -> bool {
    forall|i: int, p: int|
        0 <= i < qs.len() && 0 <= p < ps.len() ==> question_covers(
            #[trigger] qs[i],
            (#[trigger] ps[p]).0,
        )
}

/// The answer a question records for `key` (meaningful when it covers it).
pub open spec fn answer_of(q: QuestionView, key: Seq<char>) -> AnswerView {
    AnswerView {
        selection: (match lookup_first(q.answers, key) {
            Some(v) => (match stance_of_num(v) {
                Some(st) => st,
                None => Stance::Skip,
            }),
            None => Stance::Skip,
        }),
        statement: (match lookup_first(q.comments, key) {
            Some(t) => t,
            None => Seq::<char>::empty(),
        }),
    }
}

/// The answer sub-map the first `n` questions give to `key`.
pub open spec fn convert_amap(qs: Seq<QuestionView>, key: Seq<char>, n: int) -> Map<
    usize,
    AnswerView,
>
    decreases n,
{
    if n <= 0 {
        Map::<usize, AnswerView>::empty()
    } else {
        convert_amap(qs, key, n - 1).insert((n - 1) as usize, answer_of(qs[n - 1], key))
    }
}

proof fn lemma_lookup_skip<V>(s: Seq<(Seq<char>, V)>, k: Seq<char>, i: int)
    requires
        0 <= i <= s.len(),
        forall|j: int| 0 <= j < i ==> (#[trigger] s[j]).0 != k,
    ensures
        lookup_first(s, k) == lookup_first(s.subrange(i, s.len() as int), k),
    decreases i,
{
    if i > 0 {
        let t = s.drop_first();
        assert(s[0].0 != k);
        assert forall|j: int| 0 <= j < i - 1 implies (#[trigger] t[j]).0 != k by {
            assert(t[j] == s[j + 1]);
        }
        lemma_lookup_skip(t, k, i - 1);
        assert(t.subrange(i - 1, t.len() as int) =~= s.subrange(i, s.len() as int));
        assert(lookup_first(s, k) == lookup_first(t, k));
    } else {
        assert(s.subrange(0, s.len() as int) =~= s);
    }
}

fn find_u32(s: &Vec<(String, u32)>, k: &str) -> (r: Option<u32>)
    ensures
        r == lookup_first(s@.map_values(|p: (String, u32)| (p.0@, p.1)), k@),
{
    let ghost sv = s@.map_values(|p: (String, u32)| (p.0@, p.1));
    let n: usize = s.len();
    let mut i: usize = 0;
    while i < n
        invariant
            i <= n,
            n == s@.len(),
            sv == s@.map_values(|p: (String, u32)| (p.0@, p.1)),
            forall|j: int| 0 <= j < i ==> (#[trigger] sv[j]).0 != k@,
        decreases n - i,
    {
        if str_eq(s[i].0.as_str(), k) {
            proof {
                lemma_lookup_skip(sv, k@, i as int);
                assert(sv.subrange(i as int, sv.len() as int)[0] == sv[i as int]);
            }
            return Some(s[i].1);
        }
        proof {
            assert(sv[i as int].0 == s@[i as int].0@);
        }
        i = i + 1;
    }
    proof {
        lemma_lookup_skip(sv, k@, n as int);
        assert(sv.subrange(n as int, sv.len() as int) =~= Seq::<(Seq<char>, u32)>::empty());
    }
    None
}

fn find_str<'a>(s: &'a Vec<(String, String)>, k: &str) -> (r: Option<&'a String>)
    ensures
        match r {
            Some(v) => lookup_first(s@.map_values(|p: (String, String)| (p.0@, p.1@)), k@)
                == Some(v@),
            None => lookup_first(s@.map_values(|p: (String, String)| (p.0@, p.1@)), k@) is None,
        },
{
    let ghost sv = s@.map_values(|p: (String, String)| (p.0@, p.1@));
    let n: usize = s.len();
    let mut i: usize = 0;
    while i < n
        invariant
            i <= n,
            n == s@.len(),
            sv == s@.map_values(|p: (String, String)| (p.0@, p.1@)),
            forall|j: int| 0 <= j < i ==> (#[trigger] sv[j]).0 != k@,
        decreases n - i,
    {
        if str_eq(s[i].0.as_str(), k) {
            proof {
                lemma_lookup_skip(sv, k@, i as int);
                assert(sv.subrange(i as int, sv.len() as int)[0] == sv[i as int]);
            }
            return Some(&s[i].1);
        }
        proof {
            assert(sv[i as int].0 == s@[i as int].0@);
        }
        i = i + 1;
    }
    proof {
        lemma_lookup_skip(sv, k@, n as int);
        assert(sv.subrange(n as int, sv.len() as int) =~= Seq::<(Seq<char>, Seq<char>)>::empty());
    }
    None
}

/// Builds the survey document from the upstream export.  Statement ids
/// follow question order; every party becomes a respondent, with its long
/// name as display name and its short name as token prefix; every question's
/// answer code and comment for a party become that respondent's recorded
/// answer.  `InvalidInput` exactly when some question misses a party's
/// answer or comment, or carries an answer code that names no stance.
pub fn convert(questions: &Vec<Question>, parties: &Vec<(String, Party)>) -> (r: Result<
    Data,
    DataError,
>)
    requires
        unique_keys(parties@.map_values(|p: (String, Party)| (p.0@, p.1@))),
    ensures
        match r {
            Ok(d) => {
                let qv = questions@.map_values(|q: Question| q@);
                let pv = parties@.map_values(|p: (String, Party)| (p.0@, p.1@));
                &&& convert_ok(qv, pv)
                &&& d.wf()
                &&& d@.theses.len() == qv.len()
                &&& forall|i: int|
                    0 <= i < qv.len() ==> ((#[trigger] d@.theses[i]).l == qv[i].question
                        && d@.theses[i].s == qv[i].title && d@.theses[i].x == qv[i].annotation)
                &&& d@.lists.len() == pv.len()
                &&& forall|p: int|
                    0 <= p < pv.len() ==> ((#[trigger] d@.lists[p]).0 == pv[p].0
                        && d@.lists[p].1.name == pv[p].1.longname && d@.lists[p].1.name_x
                        == pv[p].1.shortname)
                &&& d@.answers.len() == pv.len()
                &&& forall|p: int|
                    0 <= p < pv.len() ==> ((#[trigger] d@.answers[p]).0 == pv[p].0 && map_of(
                        d@.answers[p].1,
                    ) == convert_amap(qv, pv[p].0, qv.len() as int))
            },
            Err(e) => {
                &&& e == DataError::InvalidInput
                &&& !convert_ok(
                    questions@.map_values(|q: Question| q@),
                    parties@.map_values(|p: (String, Party)| (p.0@, p.1@)),
                )
            },
        },
{
    let ghost qv = questions@.map_values(|q: Question| q@);
    let ghost pv = parties@.map_values(|p: (String, Party)| (p.0@, p.1@));
    let nq: usize = questions.len();
    let np: usize = parties.len();

    let mut theses: Vec<Thesis> = Vec::new();
    let mut i: usize = 0;
    while i < nq
        invariant
            i <= nq,
            nq == qv.len(),
            qv == questions@.map_values(|q: Question| q@),
            theses@.len() == i,
            forall|j: int|
                0 <= j < i ==> ((#[trigger] theses@[j])@.l == qv[j].question && theses@[j]@.s
                    == qv[j].title && theses@[j]@.x == qv[j].annotation),
        decreases nq - i,
    {
        let q = &questions[i];
        theses.push(
            Thesis { l: q.question.clone(), s: q.title.clone(), x: q.annotation.clone() },
        );
        i = i + 1;
    }

    let mut lists: Vec<(String, List)> = Vec::new();
    let mut p: usize = 0;
    while p < np
        invariant
            p <= np,
            np == pv.len(),
            pv == parties@.map_values(|q: (String, Party)| (q.0@, q.1@)),
            lists@.len() == p,
            forall|j: int|
                0 <= j < p ==> ((#[trigger] lists@[j]).0@ == pv[j].0 && lists@[j].1@.name
                    == pv[j].1.longname && lists@[j].1@.name_x == pv[j].1.shortname),
        decreases np - p,
    {
        let key: &String = &parties[p].0;
        let party: &Party = &parties[p].1;
        lists.push(
            (key.clone(), List { name: party.longname.clone(), name_x: party.shortname.clone() }),
        );
        p = p + 1;
    }

    let mut answers: Vec<(String, AnswerMap)> = Vec::new();
    let mut p: usize = 0;
    while p < np
        invariant
            p <= np,
            np == pv.len(),
            nq == qv.len(),
            qv == questions@.map_values(|q: Question| q@),
            pv == parties@.map_values(|q: (String, Party)| (q.0@, q.1@)),
            answers@.len() == p,
            forall|j: int, iq: int|
                0 <= j < p && 0 <= iq < qv.len() ==> question_covers(
                    #[trigger] qv[iq],
                    (#[trigger] pv[j]).0,
                ),
            forall|j: int|
                0 <= j < p ==> ((#[trigger] answers@[j]).0@ == pv[j].0 && answers@[j].1.wf()
                    && answers@[j].1.as_map() == convert_amap(qv, pv[j].0, qv.len() as int)),
        decreases np - p,
    {
        let key: &String = &parties[p].0;
        let mut am = AnswerMap::new();
        let mut iq: usize = 0;
        while iq < nq
            invariant
                iq <= nq,
                p < np,
                np == pv.len(),
                nq == qv.len(),
                qv == questions@.map_values(|q: Question| q@),
                pv == parties@.map_values(|q: (String, Party)| (q.0@, q.1@)),
                key@ == pv[p as int].0,
                am.wf(),
                am.as_map() == convert_amap(qv, pv[p as int].0, iq as int),
                forall|j: int| 0 <= j < iq ==> question_covers(#[trigger] qv[j], pv[p as int].0),
            decreases nq - iq,
        {
            let q = &questions[iq];
            proof {
                assert(q@ == qv[iq as int]);
            }
            let code: u32 = match find_u32(&q.answers, key.as_str()) {
                Some(v) => v,
                None => {
                    proof {
                        assert(!question_covers(qv[iq as int], pv[p as int].0));
                    }
                    return Err(DataError::InvalidInput);
                },
            };
            let st: Stance = if code == 0 {
                Stance::Agree
            } else if code == 1 {
                Stance::Neutral
            } else if code == 2 {
                Stance::Oppose
            } else {
                proof {
                    assert(!question_covers(qv[iq as int], pv[p as int].0));
                }
                return Err(DataError::InvalidInput);
            };
            let txt: String = match find_str(&q.comments, key.as_str()) {
                Some(t) => t.clone(),
                None => {
                    proof {
                        assert(!question_covers(qv[iq as int], pv[p as int].0));
                    }
                    return Err(DataError::InvalidInput);
                },
            };
            am.set(iq, Answer { selection: st, statement: txt });
            proof {
                assert(question_covers(qv[iq as int], pv[p as int].0));
                assert((Answer { selection: st, statement: txt })@ == answer_of(
                    qv[iq as int],
                    pv[p as int].0,
                ));
            }
            iq = iq + 1;
        }
        answers.push((key.clone(), am));
        p = p + 1;
    }

    let d = Data { theses, lists, answers };
    proof {
        assert(d.wf()) by {
            assert(unique_keys(d@.lists)) by {
                assert forall|a: int, b: int|
                    0 <= a < b < d@.lists.len() implies (#[trigger] d@.lists[a]).0 != (
                #[trigger] d@.lists[b]).0 by {
                    assert(d@.lists[a].0 == pv[a].0);
                    assert(d@.lists[b].0 == pv[b].0);
                }
            }
            assert(unique_keys(d@.answers)) by {
                assert forall|a: int, b: int|
                    0 <= a < b < d@.answers.len() implies (#[trigger] d@.answers[a]).0 != (
                #[trigger] d@.answers[b]).0 by {
                    assert(d@.answers[a].0 == pv[a].0);
                    assert(d@.answers[b].0 == pv[b].0);
                }
            }
            assert(forall|j: int|
                0 <= j < d@.answers.len() ==> unique_keys((#[trigger] d@.answers[j]).1));
        }
        assert(forall|j: int|
            0 <= j < pv.len() ==> map_of((#[trigger] d@.answers[j]).1) == convert_amap(
                qv,
                pv[j].0,
                qv.len() as int,
            ));
    }
    Ok(d)
}

} // verus!
