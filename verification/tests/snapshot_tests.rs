//! The snapshot codec: full-document round trips and rejection of damaged
//! text.

use survey_store::document::{Answer, AnswerMap, Data, List, Stance, Thesis};
use survey_store::error::DataError;
use survey_store::snapshot::{read_data, snapshot};

fn sample_document() -> Data {
    let mut d = Data::new();
    d.theses.push(Thesis {
        l: "Should the library be open on Sundays?".to_string(),
        s: "Library hours".to_string(),
        x: "Refers to the main branch".to_string(),
    });
    d.theses.push(Thesis {
        l: "Should Umlaute like \u{e4} work: \"quoted\"?".to_string(),
        s: "Encoding".to_string(),
        x: "".to_string(),
    });
    d.lists.push((
        "p1".to_string(),
        List { name: "Party One".to_string(), name_x: "One Word".to_string() },
    ));
    d.lists.push((
        "p2".to_string(),
        List { name: "Party: Two;".to_string(), name_x: "Two".to_string() },
    ));
    let mut a1 = AnswerMap::new();
    a1.set(0, Answer { selection: Stance::Agree, statement: "colon: semicolon; ok".to_string() });
    a1.set(1, Answer { selection: Stance::Skip, statement: "".to_string() });
    d.write("p1".to_string(), a1);
    let mut a2 = AnswerMap::new();
    a2.set(1, Answer { selection: Stance::Oppose, statement: "7:7".to_string() });
    d.write("p2".to_string(), a2);
    d
}

#[test]
fn round_trip_preserves_the_whole_document() {
    let d = sample_document();
    let text = snapshot(&d);
    let back = read_data(text.as_str()).expect("own snapshot must parse");
    assert_eq!(back.theses.len(), d.theses.len());
    for i in 0..d.theses.len() {
        assert_eq!(back.theses[i].l, d.theses[i].l);
        assert_eq!(back.theses[i].s, d.theses[i].s);
        assert_eq!(back.theses[i].x, d.theses[i].x);
    }
    assert_eq!(back.lists.len(), 2);
    assert_eq!(back.lists[0].0, "p1");
    assert_eq!(back.lists[0].1.name, "Party One");
    assert_eq!(back.lists[1].1.name, "Party: Two;");
    let a1 = back.read("p1").expect("provisioned");
    assert_eq!(a1.get(0).unwrap().selection, Stance::Agree);
    assert_eq!(a1.get(0).unwrap().statement, "colon: semicolon; ok");
    assert_eq!(a1.get(1).unwrap().selection, Stance::Skip);
    let a2 = back.read("p2").expect("provisioned");
    assert_eq!(a2.get(1).unwrap().statement, "7:7");
}

#[test]
fn round_trip_of_empty_document() {
    let d = Data::new();
    let text = snapshot(&d);
    let back = read_data(text.as_str()).expect("own snapshot must parse");
    assert_eq!(back.theses.len(), 0);
    assert_eq!(back.lists.len(), 0);
    assert_eq!(back.answers.len(), 0);
}

#[test]
fn round_trip_survives_a_mutation_cycle() {
    // Persist, load, mutate, persist again: the second snapshot must carry
    // the mutation and nothing else.
    let d = sample_document();
    let mut loaded = read_data(snapshot(&d).as_str()).expect("parses");
    let mut am = AnswerMap::new();
    am.set(0, Answer { selection: Stance::Neutral, statement: "changed".to_string() });
    loaded.write("p1".to_string(), am);
    let again = read_data(snapshot(&loaded).as_str()).expect("parses");
    let a1 = again.read("p1").expect("provisioned");
    assert_eq!(a1.len(), 1);
    assert_eq!(a1.get(0).unwrap().selection, Stance::Neutral);
    assert_eq!(a1.get(0).unwrap().statement, "changed");
}

#[test]
fn garbage_is_rejected_as_invalid_state() {
    assert_eq!(read_data("").err(), Some(DataError::InvalidState));
    assert_eq!(read_data("not a snapshot").err(), Some(DataError::InvalidState));
    assert_eq!(read_data("T1;").err(), Some(DataError::InvalidState));
}

#[test]
fn trailing_text_is_rejected() {
    let d = Data::new();
    let mut text = snapshot(&d);
    text.push_str("junk");
    assert_eq!(read_data(text.as_str()).err(), Some(DataError::InvalidState));
}

#[test]
fn truncated_snapshot_is_rejected() {
    let d = sample_document();
    let text = snapshot(&d);
    let cut: String = text.chars().take(text.chars().count() - 5).collect();
    assert_eq!(read_data(cut.as_str()).err(), Some(DataError::InvalidState));
}

#[test]
fn empty_document_has_the_canonical_form() {
    assert_eq!(snapshot(&Data::new()), "T0;L0;A0;");
    assert!(read_data("T0;L0;A0;").is_ok());
}

#[test]
fn out_of_sequence_statement_id_is_rejected() {
    // One statement, but stored under id 1 instead of 0.
    assert!(read_data("T1;0:0:0:0:L0;A0;").is_ok());
    assert_eq!(read_data("T1;1:0:0:0:L0;A0;").err(), Some(DataError::InvalidState));
}

#[test]
fn duplicate_respondent_key_is_rejected() {
    let good = "T0;L2;2:p11:N1:O2:p21:N1:OA0;";
    assert!(read_data(good).is_ok());
    let dup = "T0;L2;2:p11:N1:O2:p11:N1:OA0;";
    assert_eq!(read_data(dup).err(), Some(DataError::InvalidState));
}

#[test]
fn duplicate_answer_id_is_rejected() {
    let good = "T0;L0;A1;2:p12;0:a0:1:b0:";
    assert!(read_data(good).is_ok());
    let dup = "T0;L0;A1;2:p12;0:a0:0:b0:";
    assert_eq!(read_data(dup).err(), Some(DataError::InvalidState));
}

#[test]
fn unknown_stance_code_in_storage_is_rejected() {
    // A single answer whose stance letter is not one of a..d.
    let text = "T0;L0;A1;2:p11:0:e0:";
    assert_eq!(read_data(text).err(), Some(DataError::InvalidState));
}
