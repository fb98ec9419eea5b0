//! The form codec.
//!
//! The render path turns a respondent's current answer state into one view
//! record per statement, in id order, filling the default answer where none
//! is recorded.  The parse path turns a submitted flat field map back into an
//! answer set: each field name is a statement id in decimal followed by a
//! suffix naming the stance or the justification, and the split point is the
//! first non-digit character — an explicit rule, not a search for a letter
//! that happens not to occur in ids.

use vstd::prelude::*;
use vstd::string::*;
use crate::document::{
    Answer, AnswerMap, AnswerView, Data, Stance, Thesis, ThesisView, default_answer, map_of,
    parse_stance_code, stance_of_code,
};
use crate::error::DataError;
use crate::numbers::{dec_val, digits_end, scan_dec, scan_dec_spec};
use crate::strutil::str_eq;

verus! {

// ---------------------------------------------------------------------------
// Render path
// ---------------------------------------------------------------------------

/// One statement's renderable state: everything markup generation needs.
pub struct FormField {
    /// The one-based index shown to the reader.
    pub display_index: usize,
    /// The statement body.
    pub l: String,
    /// The short title.
    pub s: String,
    /// The annotation shown as a hint; empty when absent.
    pub x: String,
    /// The stance currently recorded.
    pub selection: Stance,
    /// The justification currently recorded.
    pub statement: String,
}

pub struct FormFieldView {
    pub display_index: usize,
    pub l: Seq<char>,
    pub s: Seq<char>,
    pub x: Seq<char>,
    pub selection: Stance,
    pub statement: Seq<char>,
}

impl View for FormField {
    type V = FormFieldView;

    open spec fn view(&self) -> FormFieldView {
        FormFieldView {
            display_index: self.display_index,
            l: self.l@,
            s: self.s@,
            x: self.x@,
            selection: self.selection,
            statement: self.statement@,
        }
    }
}

/// The view record of statement `id` rendered with answer `a`.
pub open spec fn form_field_of(id: int, t: ThesisView, a: AnswerView) -> FormFieldView {
    FormFieldView {
        display_index: (id + 1) as usize,
        l: t.l,
        s: t.s,
        x: t.x,
        selection: a.selection,
        statement: a.statement,
    }
}

/// The answer rendered for statement `id`: the recorded one, or the default.
pub open spec fn answer_or_default(m: Map<usize, AnswerView>, id: int) -> AnswerView {
    if m.contains_key(id as usize) {
        m[id as usize]
    } else {
        default_answer()
    }
}

/// Builds the view record of one statement from its id, content and answer.
pub fn as_form(id: usize, thesis: &Thesis, answer: &Answer) -> (r: FormField)
    requires
        id < usize::MAX,
    ensures
        r@ == form_field_of(id as int, thesis@, answer@),
{
    FormField {
        display_index: id + 1,
        l: thesis.l.clone(),
        s: thesis.s.clone(),
        x: thesis.x.clone(),
        selection: answer.selection,
        statement: answer.statement.clone(),
    }
}

/// Renders every statement in id order against the given answer state,
/// filling the default answer where none is recorded.
pub fn render(theses: &Vec<Thesis>, answers: &AnswerMap) -> (r: Vec<FormField>)
    requires
        answers.wf(),
    ensures
        r@.len() == theses@.len(),
        forall|i: int|
            0 <= i < r@.len() ==> (#[trigger] r@[i])@ == form_field_of(
                i,
                theses@[i]@,
                answer_or_default(answers.as_map(), i),
            ),
{
    let n: usize = theses.len();
    let mut r: Vec<FormField> = Vec::new();
    let mut i: usize = 0;
    while i < n
        invariant
            i <= n,
            n == theses@.len(),
            answers.wf(),
            r@.len() == i,
            forall|j: int|
                0 <= j < i ==> (#[trigger] r@[j])@ == form_field_of(
                    j,
                    theses@[j]@,
                    answer_or_default(answers.as_map(), j),
                ),
        decreases n - i,
    {
        let field = match answers.get(i) {
            Some(a) => as_form(i, &theses[i], a),
            None => as_form(i, &theses[i], &Answer::default()),
        };
        r.push(field);
        i = i + 1;
    }
    r
}

/// Reads a respondent's state and renders it: the statements in id order,
/// each with that respondent's recorded answer or the default.  `NotFound`
/// when the respondent was never provisioned.
///
/// Statement ids are positional here, so the render path cannot meet a
/// non-numeric stored id; that condition is rejected as `InvalidState` when a
/// snapshot is decoded.
pub fn read_and_format_forms(data: &Data, list_id: &str) -> (r: Result<Vec<FormField>, DataError>)
    requires
        data.wf(),
    ensures
        match r {
            Ok(v) => {
                &&& data@.answers_map().contains_key(list_id@)
                &&& v@.len() == data@.theses.len()
                &&& forall|i: int|
                    0 <= i < v@.len() ==> (#[trigger] v@[i])@ == form_field_of(
                        i,
                        data@.theses[i],
                        answer_or_default(data@.answers_map()[list_id@], i),
                    )
            },
            Err(e) => {
                &&& e == DataError::NotFound
                &&& !data@.answers_map().contains_key(list_id@)
            },
        },
{
    match data.read(list_id) {
        Ok(am) => Ok(render(&data.theses, am)),
        Err(e) => Err(e),
    }
}

/// A respondent with no recorded answers renders every statement with the
/// default answer: stance skip, empty justification.
pub proof fn lemma_render_defaults(theses: Seq<ThesisView>, m: Map<usize, AnswerView>)
    requires
        m == Map::<usize, AnswerView>::empty(),
    ensures
        forall|i: int|
            0 <= i < theses.len() ==> form_field_of(i, #[trigger] theses[i], answer_or_default(m, i))
                == form_field_of(i, theses[i], default_answer()),
{
}

// ---------------------------------------------------------------------------
// Parse path
// ---------------------------------------------------------------------------

/// Where a field name splits: the end of its leading digit run.
pub open spec fn split_pt(name: Seq<char>) -> int {
    digits_end(name, 0)
}

/// The decimal value of the field name's id segment.
pub open spec fn field_id(name: Seq<char>) -> int {
    dec_val(name.subrange(0, split_pt(name)))
}

/// The field name's suffix segment.
pub open spec fn field_suffix(name: Seq<char>) -> Seq<char> {
    name.subrange(split_pt(name), name.len() as int)
}

/// The stance a submitted value names: a single valid stance code letter.
pub open spec fn stance_of_value(v: Seq<char>) -> Option<Stance> {
    if v.len() == 1 {
        stance_of_code(v[0])
    } else {
        None
    }
}

/// A submitted field is valid when its name starts with a machine-range
/// decimal id, and its suffix names the stance field (with a valid stance
/// code as value) or the justification field.
pub open spec fn field_valid(name: Seq<char>, value: Seq<char>) -> bool {
    &&& split_pt(name) > 0
    &&& field_id(name) <= usize::MAX
    &&& {
        ||| (field_suffix(name) == "selection"@ && stance_of_value(value) is Some)
        ||| field_suffix(name) == "statement"@
    }
}

pub open spec fn fields_valid(fs: Seq<(Seq<char>, Seq<char>)>) -> bool {
    forall|i: int| 0 <= i < fs.len() ==> field_valid((#[trigger] fs[i]).0, fs[i].1)
}

/// The answer set a submission stands for, built field by field: a stance
/// field sets the stance, a justification field sets the text, and a
/// statement id's entry starts from the default answer when it first
/// appears.
pub open spec fn parse_fields(fs: Seq<(Seq<char>, Seq<char>)>) -> Map<usize, AnswerView>
    decreases fs.len(),
{
    if fs.len() == 0 {
        Map::<usize, AnswerView>::empty()
    } else {
        let m = parse_fields(fs.drop_last());
        let name = fs.last().0;
        let value = fs.last().1;
        let id = field_id(name) as usize;
        let cur = if m.contains_key(id) {
            m[id]
        } else {
            default_answer()
        };
        if field_suffix(name) == "selection"@ {
            match stance_of_value(value) {
                Some(st) => m.insert(id, AnswerView { selection: st, statement: cur.statement }),
                None => m.insert(id, cur),
            }
        } else {
            m.insert(id, AnswerView { selection: cur.selection, statement: value })
        }
    }
}

/// The view of a submitted field list.
pub open spec fn fields_view(s: Seq<(String, String)>) -> Seq<(Seq<char>, Seq<char>)> {
    s.map_values(|p: (String, String)| (p.0@, p.1@))
}

/// Decodes the stance a submitted value names.
pub fn parse_stance_value(v: &str) -> (r: Option<Stance>)
    ensures
        r == stance_of_value(v@),
{
    if v.unicode_len() == 1 {
        parse_stance_code(v.get_char(0))
    } else {
        None
    }
}

/// Parses a submitted field map into an answer set.  The result's key set is
/// exactly the set of statement ids that appear in some field name; no entry
/// is fabricated for an unseen id.  `InvalidInput` when any field name lacks
/// a leading machine-range decimal id, carries an unknown suffix, or names a
/// stance that is not one of the four codes.
pub fn parse_form(fields: &Vec<(String, String)>) -> (r: Result<AnswerMap, DataError>)
    ensures
        match r {
            Ok(am) => {
                &&& am.wf()
                &&& fields_valid(fields_view(fields@))
                &&& am.as_map() == parse_fields(fields_view(fields@))
            },
            Err(e) => {
                &&& e == DataError::InvalidInput
                &&& !fields_valid(fields_view(fields@))
            },
        },
{
    let ghost fv = fields_view(fields@);
    let n: usize = fields.len();
    let mut am = AnswerMap::new();
    let mut i: usize = 0;
    while i < n
        invariant
            i <= n,
            n == fields@.len(),
            fv == fields_view(fields@),
            am.wf(),
            fields_valid(fv.take(i as int)),
            am.as_map() == parse_fields(fv.take(i as int)),
        decreases n - i,
    {
        let name: &String = &fields[i].0;
        let value: &String = &fields[i].1;
        proof {
            assert(fv[i as int] == (name@, value@));
            assert(fv.take(i + 1).drop_last() =~= fv.take(i as int));
            assert(fv.take(i + 1).last() == fv[i as int]);
        }
        let nlen: usize = name.as_str().unicode_len();
        let (id, p): (usize, usize) = match scan_dec(name.as_str(), 0) {
            Some(q) => q,
            None => {
                proof {
                    assert(!field_valid(fv[i as int].0, fv[i as int].1));
                }
                return Err(DataError::InvalidInput);
            },
        };
        proof {
            crate::numbers::lemma_digits_end_bounds(name@, 0);
        }
        let suffix: &str = name.as_str().substring_char(p, nlen);
        proof {
            reveal_strlit("selection");
            reveal_strlit("statement");
            assert(split_pt(name@) == p as int);
            assert(field_id(name@) == id as int);
            assert(suffix@ == field_suffix(name@));
            assert("selection"@.len() == 9 && "statement"@.len() == 9);
            assert("selection"@[1] != "statement"@[1]);
        }
        let next: Answer;
        if str_eq(suffix, "selection") {
            let st: Stance = match parse_stance_value(value.as_str()) {
                Some(st) => st,
                None => {
                    proof {
                        assert(!field_valid(fv[i as int].0, fv[i as int].1));
                    }
                    return Err(DataError::InvalidInput);
                },
            };
            next = match am.get(id) {
                Some(a) => Answer { selection: st, statement: a.statement.clone() },
                None => Answer { selection: st, statement: String::new() },
            };
        } else if str_eq(suffix, "statement") {
            next = match am.get(id) {
                Some(a) => Answer { selection: a.selection, statement: value.clone() },
                None => Answer { selection: Stance::Skip, statement: value.clone() },
            };
        } else {
            proof {
                assert(!field_valid(fv[i as int].0, fv[i as int].1));
            }
            return Err(DataError::InvalidInput);
        }
        am.set(id, next);
        proof {
            assert(fields_valid(fv.take(i + 1))) by {
                assert(field_valid(fv[i as int].0, fv[i as int].1));
                assert forall|j: int| 0 <= j < i + 1 implies field_valid(
                    (#[trigger] fv.take(i + 1)[j]).0,
                    fv.take(i + 1)[j].1,
                ) by {
                    assert(fv.take(i + 1)[j] == fv[j]);
                    if j < i {
                        assert(fv.take(i as int)[j] == fv[j]);
                        assert(field_valid(fv.take(i as int)[j].0, fv.take(i as int)[j].1));
                    }
                }
            }
            assert(am.as_map() == parse_fields(fv.take(i + 1)));
        }
        i = i + 1;
    }
    proof {
        assert(fv.take(n as int) =~= fv);
    }
    Ok(am)
}

/// The parsed answer set holds exactly the statement ids that appear in the
/// submission: fields for an id shape its entry, and no entry exists for an
/// id no field names.
pub proof fn lemma_parse_fields_domain(fs: Seq<(Seq<char>, Seq<char>)>)
    requires
        fields_valid(fs),
    ensures
        forall|k: usize|
            parse_fields(fs).contains_key(k) <==> exists|i: int|
                0 <= i < fs.len() && field_id((#[trigger] fs[i]).0) == k as int,
    decreases fs.len(),
{
    if fs.len() > 0 {
        let t = fs.drop_last();
        assert(fields_valid(t)) by {
            assert forall|i: int| 0 <= i < t.len() implies field_valid(
                (#[trigger] t[i]).0,
                t[i].1,
            ) by {
                assert(t[i] == fs[i]);
            }
        }
        lemma_parse_fields_domain(t);
        let last = fs.last();
        assert(fs[fs.len() - 1] == last);
        assert(field_valid(last.0, last.1));
        let last_id = field_id(last.0) as usize;
        assert(field_id(last.0) >= 0) by {
            crate::numbers::lemma_digits_end_bounds(last.0, 0);
            crate::numbers::lemma_dec_val_nonneg(last.0.subrange(0, split_pt(last.0)));
        }
        assert forall|k: usize|
            parse_fields(fs).contains_key(k) <==> exists|i: int|
                0 <= i < fs.len() && field_id((#[trigger] fs[i]).0) == k as int by {
            if parse_fields(fs).contains_key(k) {
                if k == last_id {
                    assert(field_id(fs[fs.len() - 1].0) == k as int);
                } else {
                    assert(parse_fields(t).contains_key(k));
                    let i = choose|i: int|
                        0 <= i < t.len() && field_id((#[trigger] t[i]).0) == k as int;
                    assert(t[i] == fs[i]);
                    assert(0 <= i < fs.len() && field_id(fs[i].0) == k as int);
                }
            }
            if exists|i: int| 0 <= i < fs.len() && field_id((#[trigger] fs[i]).0) == k as int {
                let i = choose|i: int|
                    0 <= i < fs.len() && field_id((#[trigger] fs[i]).0) == k as int;
                if i < fs.len() - 1 {
                    assert(t[i] == fs[i]);
                    assert(0 <= i < t.len() && field_id(t[i].0) == k as int);
                    assert(parse_fields(t).contains_key(k));
                    assert(parse_fields(fs).contains_key(k));
                } else {
                    assert(k == last_id);
                    assert(parse_fields(fs).contains_key(k));
                }
            }
        }
    }
}

} // verus!
