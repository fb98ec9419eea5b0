//! The import converter: upstream questions and parties become a document.

use survey_store::convert::{convert, Party, Question};
use survey_store::document::Stance;
use survey_store::error::DataError;

fn party(short: &str, long: &str) -> Party {
    Party { shortname: short.to_string(), longname: long.to_string(), logo: "".to_string() }
}

fn question(title: &str, text: &str, answers: &[(&str, u32)], comments: &[(&str, &str)]) -> Question {
    Question {
        title: title.to_string(),
        question: text.to_string(),
        annotation: "".to_string(),
        style: "".to_string(),
        answers: answers.iter().map(|(k, v)| (k.to_string(), *v)).collect(),
        comments: comments.iter().map(|(k, v)| (k.to_string(), v.to_string())).collect(),
    }
}

#[test]
fn convert_builds_document_in_question_order() {
    let questions = vec![
        question("First", "Question one?", &[("a", 0), ("b", 2)], &[("a", "pro"), ("b", "con")]),
        question("Second", "Question two?", &[("a", 1), ("b", 0)], &[("a", ""), ("b", "sure")]),
    ];
    let parties = vec![
        ("a".to_string(), party("Alpha Party", "The Alpha Party")),
        ("b".to_string(), party("Beta", "The Beta Party")),
    ];
    let d = convert(&questions, &parties).expect("covered");
    assert_eq!(d.theses.len(), 2);
    assert_eq!(d.theses[0].l, "Question one?");
    assert_eq!(d.theses[0].s, "First");
    assert_eq!(d.theses[1].l, "Question two?");
    assert_eq!(d.lists.len(), 2);
    assert_eq!(d.lists[0].0, "a");
    assert_eq!(d.lists[0].1.name, "The Alpha Party");
    assert_eq!(d.lists[0].1.name_x, "Alpha Party");
    let a = d.read("a").expect("provisioned");
    assert_eq!(a.get(0).unwrap().selection, Stance::Agree);
    assert_eq!(a.get(0).unwrap().statement, "pro");
    assert_eq!(a.get(1).unwrap().selection, Stance::Neutral);
    let b = d.read("b").expect("provisioned");
    assert_eq!(b.get(0).unwrap().selection, Stance::Oppose);
    assert_eq!(b.get(0).unwrap().statement, "con");
    assert_eq!(b.get(1).unwrap().selection, Stance::Agree);
    assert_eq!(b.get(1).unwrap().statement, "sure");
}

#[test]
fn convert_rejects_missing_party_answer() {
    let questions = vec![question("T", "Q?", &[("a", 0)], &[("a", ""), ("b", "")])];
    let parties = vec![
        ("a".to_string(), party("A", "A")),
        ("b".to_string(), party("B", "B")),
    ];
    assert_eq!(convert(&questions, &parties).err(), Some(DataError::InvalidInput));
}

#[test]
fn convert_rejects_out_of_range_answer_code() {
    let questions = vec![question("T", "Q?", &[("a", 3)], &[("a", "")])];
    let parties = vec![("a".to_string(), party("A", "A"))];
    assert_eq!(convert(&questions, &parties).err(), Some(DataError::InvalidInput));
}

#[test]
fn convert_rejects_missing_comment() {
    let questions = vec![question("T", "Q?", &[("a", 0)], &[])];
    let parties = vec![("a".to_string(), party("A", "A"))];
    assert_eq!(convert(&questions, &parties).err(), Some(DataError::InvalidInput));
}

#[test]
fn convert_of_empty_input_is_empty() {
    let d = convert(&Vec::new(), &Vec::new()).expect("trivially covered");
    assert_eq!(d.theses.len(), 0);
    assert_eq!(d.lists.len(), 0);
    assert_eq!(d.answers.len(), 0);
}
