//! The survey document: statements, respondents, and the answer matrix,
//! together with the key-uniqueness invariants that every operation keeps.
//!
//! Statements are identified by their position, so the statement map of the
//! persisted form is held as a vector whose index is the statement id.  The
//! respondent map and the answer matrix are held as key/value vectors whose
//! abstract meaning is a `Map`, with unique keys as the invariant.

use vstd::prelude::*;
use vstd::string::*;

verus! {

// ---------------------------------------------------------------------------
// Stances
// ---------------------------------------------------------------------------

/// A respondent's stance on one statement.
#[derive(Clone, Copy, Debug, PartialEq, Eq, Structural)]
pub enum Stance {
    Agree,
    Neutral,
    Oppose,
    Skip,
}

/// The single-letter code under which a stance is persisted and submitted.
pub open spec fn stance_code(st: Stance) -> char {
    match st {
        Stance::Agree => 'a',
        Stance::Neutral => 'b',
        Stance::Oppose => 'c',
        Stance::Skip => 'd',
    }
}

/// The stance a single-letter code names, if any.
pub open spec fn stance_of_code(c: char) -> Option<Stance> {
    if c == 'a' {
        Some(Stance::Agree)
    } else if c == 'b' {
        Some(Stance::Neutral)
    } else if c == 'c' {
        Some(Stance::Oppose)
    } else if c == 'd' {
        Some(Stance::Skip)
    } else {
        None
    }
}

/// The single-letter code of `st` as a string.
pub fn stance_letter(st: Stance) -> (r: &'static str)
    ensures
        r@ == seq![stance_code(st)],
{
    let r: &'static str = match st {
        Stance::Agree => "a",
        Stance::Neutral => "b",
        Stance::Oppose => "c",
        Stance::Skip => "d",
    };
    proof {
        reveal_strlit("a");
        reveal_strlit("b");
        reveal_strlit("c");
        reveal_strlit("d");
        assert(r@ =~= seq![stance_code(st)]);
    }
    r
}

/// Decodes a single-letter stance code.
pub fn parse_stance_code(c: char) -> (r: Option<Stance>)
    ensures
        r == stance_of_code(c),
{
    if c == 'a' {
        Some(Stance::Agree)
    } else if c == 'b' {
        Some(Stance::Neutral)
    } else if c == 'c' {
        Some(Stance::Oppose)
    } else if c == 'd' {
        Some(Stance::Skip)
    } else {
        None
    }
}

// ---------------------------------------------------------------------------
// Records
// ---------------------------------------------------------------------------

/// One survey statement: body text, short title, optional annotation
/// (empty means absent).  Immutable except for renumbering, which never
/// touches the content.
pub struct Thesis {
    /// The statement body.
    pub l: String,
    /// The short title.
    pub s: String,
    /// The annotation shown as a hint; empty when absent.
    pub x: String,
}

pub struct ThesisView {
    pub l: Seq<char>,
    pub s: Seq<char>,
    pub x: Seq<char>,
}

impl View for Thesis {
    type V = ThesisView;

    open spec fn view(&self) -> ThesisView {
        ThesisView { l: self.l@, s: self.s@, x: self.x@ }
    }
}

/// One respondent: long display name and the short name from which the
/// capability token prefix is derived.
pub struct List {
    /// The display name.
    pub name: String,
    /// The short name.
    pub name_x: String,
}

pub struct ListView {
    pub name: Seq<char>,
    pub name_x: Seq<char>,
}

impl View for List {
    type V = ListView;

    open spec fn view(&self) -> ListView {
        ListView { name: self.name@, name_x: self.name_x@ }
    }
}

/// One respondent's stance and free-text justification for one statement.
pub struct Answer {
    /// The stance.
    pub selection: Stance,
    /// The justification text.
    pub statement: String,
}

pub struct AnswerView {
    pub selection: Stance,
    pub statement: Seq<char>,
}

impl View for Answer {
    type V = AnswerView;

    open spec fn view(&self) -> AnswerView {
        AnswerView { selection: self.selection, statement: self.statement@ }
    }
}

/// The answer value that stands for "no answer recorded": skip, no text.
pub open spec fn default_answer() -> AnswerView {
    AnswerView { selection: Stance::Skip, statement: Seq::<char>::empty() }
}

impl Default for Answer {
    /// The default answer: stance skip, empty justification.
    fn default() -> (r: Self)
        ensures
            r@ == default_answer(),
    {
        Answer { selection: Stance::Skip, statement: String::new() }
    }
}

impl Clone for Answer {
    fn clone(&self) -> (r: Self)
        ensures
            r@ == self@,
    {
        Answer { selection: self.selection, statement: self.statement.clone() }
    }
}

// ---------------------------------------------------------------------------
// Key/value vectors as maps
// ---------------------------------------------------------------------------

/// No key occurs twice.
pub open spec fn unique_keys<K, V>(s: Seq<(K, V)>) -> bool {
    forall|i: int, j: int| 0 <= i < j < s.len() ==> (#[trigger] s[i]).0 != (#[trigger] s[j]).0
}

/// The map a key/value sequence stands for (later entries win).
pub open spec fn map_of<K, V>(s: Seq<(K, V)>) -> Map<K, V>
    decreases s.len(),
{
    if s.len() == 0 {
        Map::<K, V>::empty()
    } else {
        map_of(s.drop_last()).insert(s.last().0, s.last().1)
    }
}

/// A key is in the map exactly when some entry holds it.
pub proof fn lemma_map_of_domain<K, V>(s: Seq<(K, V)>)
    ensures
        forall|k: K|
            map_of(s).contains_key(k) <==> exists|i: int| 0 <= i < s.len() && (#[trigger] s[i]).0 == k,
    decreases s.len(),
{
    if s.len() > 0 {
        let t = s.drop_last();
        lemma_map_of_domain(t);
        assert(map_of(s) == map_of(t).insert(s.last().0, s.last().1));
        assert forall|k: K|
            map_of(s).contains_key(k) <==> exists|i: int|
                0 <= i < s.len() && (#[trigger] s[i]).0 == k by {
            if map_of(s).contains_key(k) {
                if k == s.last().0 {
                    assert(0 <= s.len() - 1 < s.len() && s[s.len() - 1].0 == k);
                } else {
                    assert(map_of(t).contains_key(k));
                    let i = choose|i: int| 0 <= i < t.len() && (#[trigger] t[i]).0 == k;
                    assert(t[i] == s[i]);
                    assert(0 <= i < s.len() && s[i].0 == k);
                }
            }
            if exists|i: int| 0 <= i < s.len() && (#[trigger] s[i]).0 == k {
                let i = choose|i: int| 0 <= i < s.len() && (#[trigger] s[i]).0 == k;
                if i < s.len() - 1 {
                    assert(t[i] == s[i]);
                    assert(0 <= i < t.len() && t[i].0 == k);
                    assert(map_of(t).contains_key(k));
                } else {
                    assert(k == s.last().0);
                }
                assert(map_of(s).contains_key(k));
            }
        }
    }
}

/// Under unique keys, the entry at `i` is what the map returns for its key.
pub proof fn lemma_map_of_index<K, V>(s: Seq<(K, V)>, i: int)
    requires
        unique_keys(s),
        0 <= i < s.len(),
    ensures
        map_of(s).contains_key(s[i].0),
        map_of(s)[s[i].0] == s[i].1,
    decreases s.len(),
{
    if i == s.len() - 1 {
    } else {
        assert(unique_keys(s.drop_last()));
        assert(s.drop_last()[i] == s[i]);
        lemma_map_of_index(s.drop_last(), i);
        assert(s[i].0 != s.last().0);
    }
}

/// Appending an entry inserts it into the map.
pub proof fn lemma_map_of_push<K, V>(s: Seq<(K, V)>, k: K, v: V)
    ensures
        map_of(s.push((k, v))) == map_of(s).insert(k, v),
{
    assert(s.push((k, v)).drop_last() =~= s);
    assert(s.push((k, v)).last() == (k, v));
}

/// Replacing the entry at `i` in place replaces its value in the map.
pub proof fn lemma_map_of_update<K, V>(s: Seq<(K, V)>, i: int, v: V)
    requires
        unique_keys(s),
        0 <= i < s.len(),
    ensures
        map_of(s.update(i, (s[i].0, v))) == map_of(s).insert(s[i].0, v),
    decreases s.len(),
{
    let t = s.update(i, (s[i].0, v));
    if i == s.len() - 1 {
        assert(t.drop_last() =~= s.drop_last());
        assert(t.last() == (s[i].0, v));
    } else {
        assert(t.drop_last() =~= s.drop_last().update(i, (s[i].0, v)));
        assert(unique_keys(s.drop_last()));
        assert(s.drop_last()[i] == s[i]);
        lemma_map_of_update(s.drop_last(), i, v);
        assert(t.last() == s.last());
        assert(s[i].0 != s.last().0);
        assert(map_of(t) == map_of(s.drop_last()).insert(s[i].0, v).insert(s.last().0, s.last().1));
        assert(map_of(s.drop_last()).insert(s[i].0, v).insert(s.last().0, s.last().1)
            =~= map_of(s.drop_last()).insert(s.last().0, s.last().1).insert(s[i].0, v));
    }
}

/// Whether no two entries of `v` share their string key.
pub fn check_unique_string_keys<V>(v: &Vec<(String, V)>) -> (r: bool)
    ensures
        r == (forall|p: int, q: int|
            0 <= p < q < v@.len() ==> (#[trigger] v@[p]).0@ != (#[trigger] v@[q]).0@),
{
    let n: usize = v.len();
    let mut i: usize = 0;
    while i < n
        invariant
            i <= n,
            n == v@.len(),
            forall|p: int, q: int| 0 <= p < q < i ==> (#[trigger] v@[p]).0@ != (#[trigger] v@[q]).0@,
        decreases n - i,
    {
        let mut j: usize = 0;
        while j < i
            invariant
                j <= i < n,
                n == v@.len(),
                forall|p: int, q: int|
                    0 <= p < q < i ==> (#[trigger] v@[p]).0@ != (#[trigger] v@[q]).0@,
                forall|p: int| 0 <= p < j ==> (#[trigger] v@[p]).0@ != v@[i as int].0@,
            decreases i - j,
        {
            if crate::strutil::str_eq(v[j].0.as_str(), v[i].0.as_str()) {
                return false;
            }
            j = j + 1;
        }
        i = i + 1;
    }
    true
}

// ---------------------------------------------------------------------------
// The per-respondent answer map
// ---------------------------------------------------------------------------

/// One respondent's answers, keyed by statement id.  Absence of an id means
/// the default answer.
pub struct AnswerMap {
    entries: Vec<(usize, Answer)>,
}

impl View for AnswerMap {
    type V = Seq<(usize, AnswerView)>;

    closed spec fn view(&self) -> Seq<(usize, AnswerView)> {
        self.entries@.map_values(|p: (usize, Answer)| (p.0, p.1@))
    }
}

impl AnswerMap {
    /// Key uniqueness: each statement id is recorded at most once.
    pub open spec fn wf(self) -> bool {
        unique_keys(self@)
    }

    /// The map this collection stands for.
    pub open spec fn as_map(self) -> Map<usize, AnswerView> {
        map_of(self@)
    }

    /// An empty answer map.
    pub fn new() -> (r: Self)
        ensures
            r@ =~= Seq::<(usize, AnswerView)>::empty(),
            r.wf(),
            r.as_map() =~= Map::<usize, AnswerView>::empty(),
    {
        let r = AnswerMap { entries: Vec::new() };
        proof {
            assert(r@ =~= Seq::<(usize, AnswerView)>::empty());
        }
        r
    }

    /// The number of recorded answers.
    pub fn len(&self) -> (n: usize)
        ensures
            n == self@.len(),
    {
        self.entries.len()
    }

    /// The entry at position `i`, for iteration.
    pub fn entry_at(&self, i: usize) -> (r: &(usize, Answer))
        requires
            i < self@.len(),
        ensures
            r.0 == self@[i as int].0,
            r.1@ == self@[i as int].1,
    {
        &self.entries[i]
    }

    /// The recorded answer for statement `id`, if any.
    pub fn get(&self, id: usize) -> (r: Option<&Answer>)
        requires
            self.wf(),
        ensures
            match r {
                Some(a) => self.as_map().contains_key(id) && a@ == self.as_map()[id],
                None => !self.as_map().contains_key(id),
            },
    {
        let n: usize = self.entries.len();
        let mut i: usize = 0;
        while i < n
            invariant
                n == self@.len(),
                i <= n,
                self.wf(),
                forall|j: int| 0 <= j < i ==> (#[trigger] self@[j]).0 != id,
            decreases n - i,
        {
            if self.entries[i].0 == id {
                proof {
                    lemma_map_of_index(self@, i as int);
                }
                return Some(&self.entries[i].1);
            }
            i = i + 1;
        }
        proof {
            lemma_map_of_domain(self@);
        }
        None
    }

    /// Wraps a raw entry list, refusing one that records a statement id
    /// twice.
    pub fn from_entries(entries: Vec<(usize, Answer)>) -> (r: Option<AnswerMap>)
        ensures
            match r {
                Some(am) => {
                    &&& am.wf()
                    &&& am@ == entries@.map_values(|p: (usize, Answer)| (p.0, p.1@))
                },
                None => !unique_keys(entries@.map_values(|p: (usize, Answer)| (p.0, p.1@))),
            },
    {
        let ghost ev = entries@.map_values(|p: (usize, Answer)| (p.0, p.1@));
        let n: usize = entries.len();
        let mut i: usize = 0;
        while i < n
            invariant
                i <= n,
                n == entries@.len(),
                ev == entries@.map_values(|p: (usize, Answer)| (p.0, p.1@)),
                forall|p: int, q: int|
                    0 <= p < q < i ==> (#[trigger] ev[p]).0 != (#[trigger] ev[q]).0,
            decreases n - i,
        {
            let mut j: usize = 0;
            while j < i
                invariant
                    j <= i < n,
                    n == entries@.len(),
                    ev == entries@.map_values(|p: (usize, Answer)| (p.0, p.1@)),
                    forall|p: int, q: int|
                        0 <= p < q < i ==> (#[trigger] ev[p]).0 != (#[trigger] ev[q]).0,
                    forall|p: int| 0 <= p < j ==> (#[trigger] ev[p]).0 != ev[i as int].0,
                decreases i - j,
            {
                if entries[j].0 == entries[i].0 {
                    proof {
                        assert(ev[j as int].0 == ev[i as int].0);
                    }
                    return None;
                }
                j = j + 1;
            }
            i = i + 1;
        }
        let am = AnswerMap { entries };
        proof {
            assert(am@ == ev);
        }
        Some(am)
    }

    /// Records `a` for statement `id`, replacing any earlier answer.
    pub fn set(&mut self, id: usize, a: Answer)
        requires
            old(self).wf(),
        ensures
            final(self).wf(),
            final(self).as_map() == old(self).as_map().insert(id, a@),
            final(self)@.len() <= old(self)@.len() + 1,
    {
        let n: usize = self.entries.len();
        let mut i: usize = 0;
        while i < n
            invariant
                *self == *old(self),
                n == self@.len(),
                i <= n,
                self.wf(),
                forall|j: int| 0 <= j < i ==> (#[trigger] self@[j]).0 != id,
            decreases n - i,
        {
            if self.entries[i].0 == id {
                let ghost before = self@;
                proof {
                    assert(before[i as int] == (self.entries@.map_values(
                        |p: (usize, Answer)| (p.0, p.1@),
                    ))[i as int]);
                    assert(before[i as int].0 == id);
                    lemma_map_of_update(before, i as int, a@);
                }
                self.entries[i] = (id, a);
                proof {
                    assert(self@ =~= before.update(i as int, (id, a@)));
                    assert(self@ == before.update(i as int, (before[i as int].0, a@)));
                    assert(self.as_map() == map_of(before).insert(id, a@));
                    assert forall|p: int, q: int| 0 <= p < q < self@.len() implies (
                    #[trigger] self@[p]).0 != (#[trigger] self@[q]).0 by {
                        assert(self@[p].0 == before[p].0);
                        assert(self@[q].0 == before[q].0);
                    }
                }
                return ;
            }
            i = i + 1;
        }
        let ghost before = self@;
        proof {
            lemma_map_of_push(before, id, a@);
            lemma_map_of_domain(before);
        }
        self.entries.push((id, a));
        proof {
            assert(self@ =~= before.push((id, a@)));
            assert forall|p: int, q: int| 0 <= p < q < self@.len() implies (#[trigger] self@[p]).0
                != (#[trigger] self@[q]).0 by {
                if q == self@.len() - 1 {
                    assert(self@[p] == before[p]);
                }
            }
        }
    }
}

// ---------------------------------------------------------------------------
// The survey document
// ---------------------------------------------------------------------------

/// The whole survey document: statements (the index is the statement id),
/// respondents keyed by their stable string key, and the answer matrix.
pub struct Data {
    /// The statements; a statement's id is its position.
    pub theses: Vec<Thesis>,
    /// The respondents, keyed by their stable id.
    pub lists: Vec<(String, List)>,
    /// The answer matrix: respondent id to that respondent's answers.
    pub answers: Vec<(String, AnswerMap)>,
}

pub struct DataView {
    pub theses: Seq<ThesisView>,
    pub lists: Seq<(Seq<char>, ListView)>,
    pub answers: Seq<(Seq<char>, Seq<(usize, AnswerView)>)>,
}

impl View for Data {
    type V = DataView;

    open spec fn view(&self) -> DataView {
        DataView {
            theses: self.theses@.map_values(|t: Thesis| t@),
            lists: self.lists@.map_values(|p: (String, List)| (p.0@, p.1@)),
            answers: self.answers@.map_values(|p: (String, AnswerMap)| (p.0@, p.1@)),
        }
    }
}

impl DataView {
    /// Key uniqueness across the document: respondent keys occur once in the
    /// respondent map and once in the answer matrix, and each respondent's
    /// answer map holds each statement id at most once.
    pub open spec fn wf(self) -> bool {
        &&& unique_keys(self.lists)
        &&& unique_keys(self.answers)
        &&& forall|i: int| 0 <= i < self.answers.len() ==> unique_keys((#[trigger] self.answers[i]).1)
    }

    /// The respondent map.
    pub open spec fn lists_map(self) -> Map<Seq<char>, ListView> {
        map_of(self.lists)
    }

    /// The answer matrix as a map of maps.
    pub open spec fn answers_map(self) -> Map<Seq<char>, Map<usize, AnswerView>> {
        map_of(self.answers.map_values(|p: (Seq<char>, Seq<(usize, AnswerView)>)| (p.0, map_of(p.1))))
    }
}

impl Data {
    /// Document well-formedness.
    pub open spec fn wf(self) -> bool {
        self@.wf()
    }

    /// An empty document.
    pub fn new() -> (r: Self)
        ensures
            r.wf(),
            r@.theses =~= Seq::<ThesisView>::empty(),
            r@.lists =~= Seq::<(Seq<char>, ListView)>::empty(),
            r@.answers =~= Seq::<(Seq<char>, Seq<(usize, AnswerView)>)>::empty(),
    {
        let r = Data { theses: Vec::new(), lists: Vec::new(), answers: Vec::new() };
        proof {
            assert(r@.theses =~= Seq::<ThesisView>::empty());
            assert(r@.lists =~= Seq::<(Seq<char>, ListView)>::empty());
            assert(r@.answers =~= Seq::<(Seq<char>, Seq<(usize, AnswerView)>)>::empty());
        }
        r
    }
}

} // verus!
