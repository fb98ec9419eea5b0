//! The form codec: rendering answer state and parsing submitted fields.

use survey_store::document::{Answer, AnswerMap, Data, List, Stance, Thesis};
use survey_store::error::DataError;
use survey_store::formcodec::{as_form, parse_form, read_and_format_forms, render};

fn thesis(l: &str, s: &str, x: &str) -> Thesis {
    Thesis { l: l.to_string(), s: s.to_string(), x: x.to_string() }
}

fn fields(pairs: &[(&str, &str)]) -> Vec<(String, String)> {
    pairs.iter().map(|(k, v)| (k.to_string(), v.to_string())).collect()
}

#[test]
fn as_form_carries_content_and_one_based_index() {
    let t = thesis("Should it?", "Question", "a hint");
    let a = Answer { selection: Stance::Neutral, statement: "maybe".to_string() };
    let f = as_form(4, &t, &a);
    assert_eq!(f.display_index, 5);
    assert_eq!(f.l, "Should it?");
    assert_eq!(f.s, "Question");
    assert_eq!(f.x, "a hint");
    assert_eq!(f.selection, Stance::Neutral);
    assert_eq!(f.statement, "maybe");
}

#[test]
fn render_fills_defaults_for_unanswered_statements() {
    // A respondent with no prior submission sees every statement with the
    // default answer: stance skip, empty justification.
    let theses = vec![thesis("q0", "t0", ""), thesis("q1", "t1", ""), thesis("q2", "t2", "")];
    let empty = AnswerMap::new();
    let fields = render(&theses, &empty);
    assert_eq!(fields.len(), 3);
    for (i, f) in fields.iter().enumerate() {
        assert_eq!(f.display_index, i + 1);
        assert_eq!(f.selection, Stance::Skip);
        assert_eq!(f.statement, "");
    }
}

#[test]
fn render_uses_recorded_answers_in_id_order() {
    let theses = vec![thesis("q0", "t0", ""), thesis("q1", "t1", "")];
    let mut am = AnswerMap::new();
    am.set(1, Answer { selection: Stance::Agree, statement: "sure".to_string() });
    let fields = render(&theses, &am);
    assert_eq!(fields.len(), 2);
    assert_eq!(fields[0].selection, Stance::Skip);
    assert_eq!(fields[1].selection, Stance::Agree);
    assert_eq!(fields[1].statement, "sure");
}

#[test]
fn read_and_format_forms_fails_for_unknown_respondent() {
    let d = Data::new();
    assert_eq!(read_and_format_forms(&d, "nobody").err(), Some(DataError::NotFound));
}

#[test]
fn read_and_format_forms_renders_the_respondents_state() {
    let mut d = Data::new();
    d.theses.push(thesis("q0", "t0", ""));
    d.theses.push(thesis("q1", "t1", ""));
    let mut am = AnswerMap::new();
    am.set(0, Answer { selection: Stance::Oppose, statement: "against".to_string() });
    d.write("p1".to_string(), am);
    let forms = read_and_format_forms(&d, "p1").expect("provisioned");
    assert_eq!(forms.len(), 2);
    assert_eq!(forms[0].selection, Stance::Oppose);
    assert_eq!(forms[0].statement, "against");
    assert_eq!(forms[1].selection, Stance::Skip);
}

#[test]
fn parse_groups_fields_by_statement_id() {
    // {"2selection":"a","2statement":"ok"} yields one answer at id 2 with
    // stance agree and justification "ok"; no entry exists for unseen ids.
    let am = parse_form(&fields(&[("2selection", "a"), ("2statement", "ok")])).expect("valid");
    assert_eq!(am.len(), 1);
    let a = am.get(2).expect("present");
    assert_eq!(a.selection, Stance::Agree);
    assert_eq!(a.statement, "ok");
    assert!(am.get(5).is_none());
}

#[test]
fn parse_defaults_missing_half_of_a_pair() {
    let am = parse_form(&fields(&[("0statement", "only text")])).expect("valid");
    let a = am.get(0).expect("present");
    assert_eq!(a.selection, Stance::Skip);
    assert_eq!(a.statement, "only text");

    let am2 = parse_form(&fields(&[("7selection", "c")])).expect("valid");
    let a2 = am2.get(7).expect("present");
    assert_eq!(a2.selection, Stance::Oppose);
    assert_eq!(a2.statement, "");
}

#[test]
fn parse_accepts_all_four_stance_codes() {
    let am = parse_form(&fields(&[
        ("0selection", "a"),
        ("1selection", "b"),
        ("2selection", "c"),
        ("3selection", "d"),
    ]))
    .expect("valid");
    assert_eq!(am.get(0).unwrap().selection, Stance::Agree);
    assert_eq!(am.get(1).unwrap().selection, Stance::Neutral);
    assert_eq!(am.get(2).unwrap().selection, Stance::Oppose);
    assert_eq!(am.get(3).unwrap().selection, Stance::Skip);
}

#[test]
fn parse_rejects_unknown_stance_code() {
    let r = parse_form(&fields(&[("2selection", "x")]));
    assert_eq!(r.err(), Some(DataError::InvalidInput));
    let r2 = parse_form(&fields(&[("2selection", "ab")]));
    assert_eq!(r2.err(), Some(DataError::InvalidInput));
}

#[test]
fn parse_rejects_field_without_numeric_id() {
    let r = parse_form(&fields(&[("selection", "a")]));
    assert_eq!(r.err(), Some(DataError::InvalidInput));
}

#[test]
fn parse_rejects_unknown_suffix() {
    let r = parse_form(&fields(&[("2comment", "hello")]));
    assert_eq!(r.err(), Some(DataError::InvalidInput));
}

#[test]
fn parse_of_empty_submission_is_empty() {
    let am = parse_form(&fields(&[])).expect("valid");
    assert_eq!(am.len(), 0);
}
