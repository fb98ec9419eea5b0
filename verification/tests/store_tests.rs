//! The response store: read, write (replacement), delete (renumbering).

use survey_store::document::{Answer, AnswerMap, Data, List, Stance, Thesis};
use survey_store::error::DataError;

fn thesis(l: &str, s: &str, x: &str) -> Thesis {
    Thesis { l: l.to_string(), s: s.to_string(), x: x.to_string() }
}

fn answer(st: Stance, text: &str) -> Answer {
    Answer { selection: st, statement: text.to_string() }
}

fn doc_with_four_statements() -> Data {
    let mut d = Data::new();
    d.theses.push(thesis("q0", "t0", ""));
    d.theses.push(thesis("q1", "t1", "hint"));
    d.theses.push(thesis("q2", "t2", ""));
    d.theses.push(thesis("q3", "t3", ""));
    d.lists.push(("p1".to_string(), List { name: "Party One".to_string(), name_x: "One".to_string() }));
    d
}

fn amap(entries: Vec<(usize, Answer)>) -> AnswerMap {
    AnswerMap::from_entries(entries).expect("unique ids")
}

#[test]
fn read_unknown_respondent_fails() {
    let d = doc_with_four_statements();
    let r = d.read("p1");
    assert_eq!(r.err(), Some(DataError::NotFound));
}

#[test]
fn write_then_read_returns_exactly_what_was_written() {
    let mut d = doc_with_four_statements();
    let a = amap(vec![(0, answer(Stance::Agree, "yes")), (2, answer(Stance::Oppose, "no"))]);
    d.write("p1".to_string(), a);
    let got = d.read("p1").expect("provisioned");
    assert_eq!(got.len(), 2);
    assert_eq!(got.get(0).unwrap().selection, Stance::Agree);
    assert_eq!(got.get(0).unwrap().statement, "yes");
    assert_eq!(got.get(2).unwrap().selection, Stance::Oppose);
    assert!(got.get(1).is_none());
}

#[test]
fn write_replaces_whole_submap_no_stale_fields() {
    let mut d = doc_with_four_statements();
    let first = amap(vec![
        (0, answer(Stance::Agree, "old zero")),
        (1, answer(Stance::Neutral, "old one")),
    ]);
    d.write("p1".to_string(), first);
    let second = amap(vec![(0, answer(Stance::Oppose, "new zero"))]);
    d.write("p1".to_string(), second);
    let got = d.read("p1").expect("provisioned");
    assert_eq!(got.len(), 1);
    assert_eq!(got.get(0).unwrap().selection, Stance::Oppose);
    assert_eq!(got.get(0).unwrap().statement, "new zero");
    // The entry for statement 1 must not survive the replacement.
    assert!(got.get(1).is_none());
}

#[test]
fn writes_to_different_respondents_are_independent() {
    let mut d = doc_with_four_statements();
    let a1 = amap(vec![(0, answer(Stance::Agree, "from p1"))]);
    let a2 = amap(vec![(0, answer(Stance::Oppose, "from p2"))]);
    d.write("p1".to_string(), a1);
    d.write("p2".to_string(), a2);
    assert_eq!(d.read("p1").unwrap().get(0).unwrap().statement, "from p1");
    assert_eq!(d.read("p2").unwrap().get(0).unwrap().statement, "from p2");
}

#[test]
fn delete_compacts_statements_and_answers() {
    // Statements {0,1,2,3}, answers {0:x,1:y,2:z,3:w}; deleting 1 must give
    // statements {0,1,2} and answers {0:x,1:z,2:w}: y discarded, ids above
    // the deleted one shifted down, content still paired with its answer.
    let mut d = doc_with_four_statements();
    let a = amap(vec![
        (0, answer(Stance::Agree, "x")),
        (1, answer(Stance::Neutral, "y")),
        (2, answer(Stance::Oppose, "z")),
        (3, answer(Stance::Skip, "w")),
    ]);
    d.write("p1".to_string(), a);
    d.delete(1).expect("in range");
    assert_eq!(d.theses.len(), 3);
    assert_eq!(d.theses[0].l, "q0");
    assert_eq!(d.theses[1].l, "q2");
    assert_eq!(d.theses[2].l, "q3");
    let got = d.read("p1").expect("provisioned");
    assert_eq!(got.len(), 3);
    assert_eq!(got.get(0).unwrap().statement, "x");
    assert_eq!(got.get(1).unwrap().statement, "z");
    assert_eq!(got.get(2).unwrap().statement, "w");
    assert!(got.get(3).is_none());
}

#[test]
fn delete_beyond_last_statement_fails() {
    let mut d = doc_with_four_statements();
    assert_eq!(d.delete(4).err(), Some(DataError::NotFound));
    let mut empty = Data::new();
    assert_eq!(empty.delete(0).err(), Some(DataError::NotFound));
}

#[test]
fn answer_default_is_skip_with_empty_text() {
    let a = Answer::default();
    assert_eq!(a.selection, Stance::Skip);
    assert_eq!(a.statement, "");
}

#[test]
fn from_entries_rejects_duplicate_ids() {
    let dup = vec![(1, answer(Stance::Agree, "a")), (1, answer(Stance::Oppose, "b"))];
    assert!(AnswerMap::from_entries(dup).is_none());
}
