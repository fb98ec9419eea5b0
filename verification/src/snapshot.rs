//! The snapshot codec: the full-document persisted form.
//!
//! A snapshot holds the three top-level maps — statements under their
//! decimal ids, respondents, and the answer matrix — with every string
//! length-prefixed and every stance as its single-letter code.  The caller
//! writes the text to storage (temp-file-then-rename, outside this crate)
//! after every accepted mutation and reads it back at startup.  Decoding
//! rejects malformed text, non-contiguous statement ids and duplicate keys
//! as `InvalidState`.

use vstd::prelude::*;
use vstd::string::*;
use crate::document::{
    Answer, AnswerMap, AnswerView, Data, DataView, List, ListView, Thesis, ThesisView,
    check_unique_string_keys, parse_stance_code, stance_code, stance_letter, stance_of_code,
    unique_keys,
};
use crate::error::DataError;
use crate::numbers::{
    dec_rep, dec_string, dec_val, digits_end, is_digit, lemma_dec_rep_digits,
    lemma_dec_val_dec_rep, lemma_digits_end_exact, scan_dec, scan_dec_spec,
};
use crate::strutil::str_eq;

verus! {

// ---------------------------------------------------------------------------
// The encoded form
// ---------------------------------------------------------------------------

/// A length-prefixed string: its length in decimal, a colon, its characters.
pub open spec fn enc_str(v: Seq<char>) -> Seq<char> {
    dec_rep(v.len()) + seq![':'] + v
}

/// One statement under its id.
pub open spec fn enc_thesis(k: int, t: ThesisView) -> Seq<char> {
    dec_rep(k as nat) + seq![':'] + enc_str(t.l) + enc_str(t.s) + enc_str(t.x)
}

/// The statements from position `k` on, each under its id.
pub open spec fn enc_theses_from(ts: Seq<ThesisView>, k: int) -> Seq<char>
    decreases ts.len() - k,
{
    if k < 0 || k >= ts.len() {
        Seq::<char>::empty()
    } else {
        enc_thesis(k, ts[k]) + enc_theses_from(ts, k + 1)
    }
}

/// One respondent: key, display name, short name.
pub open spec fn enc_list(p: (Seq<char>, ListView)) -> Seq<char> {
    enc_str(p.0) + enc_str(p.1.name) + enc_str(p.1.name_x)
}

pub open spec fn enc_lists_from(ls: Seq<(Seq<char>, ListView)>, k: int) -> Seq<char>
    decreases ls.len() - k,
{
    if k < 0 || k >= ls.len() {
        Seq::<char>::empty()
    } else {
        enc_list(ls[k]) + enc_lists_from(ls, k + 1)
    }
}

/// One recorded answer: statement id, colon, stance code, justification.
pub open spec fn enc_aentry(e: (usize, AnswerView)) -> Seq<char> {
    dec_rep(e.0 as nat) + seq![':'] + seq![stance_code(e.1.selection)] + enc_str(e.1.statement)
}

pub open spec fn enc_aentries_from(es: Seq<(usize, AnswerView)>, k: int) -> Seq<char>
    decreases es.len() - k,
{
    if k < 0 || k >= es.len() {
        Seq::<char>::empty()
    } else {
        enc_aentry(es[k]) + enc_aentries_from(es, k + 1)
    }
}

/// One respondent's answer sub-map: key, entry count, the entries.
pub open spec fn enc_amap(p: (Seq<char>, Seq<(usize, AnswerView)>)) -> Seq<char> {
    enc_str(p.0) + dec_rep(p.1.len()) + seq![';'] + enc_aentries_from(p.1, 0)
}

pub open spec fn enc_answers_from(
    as_: Seq<(Seq<char>, Seq<(usize, AnswerView)>)>,
    k: int,
) -> Seq<char>
    decreases as_.len() - k,
{
    if k < 0 || k >= as_.len() {
        Seq::<char>::empty()
    } else {
        enc_amap(as_[k]) + enc_answers_from(as_, k + 1)
    }
}

/// The whole snapshot: the three sections, each marked and counted.
pub open spec fn encode_data(d: DataView) -> Seq<char> {
    seq!['T'] + dec_rep(d.theses.len()) + seq![';'] + enc_theses_from(d.theses, 0) + seq!['L']
        + dec_rep(d.lists.len()) + seq![';'] + enc_lists_from(d.lists, 0) + seq!['A'] + dec_rep(
        d.answers.len(),
    ) + seq![';'] + enc_answers_from(d.answers, 0)
}

// ---------------------------------------------------------------------------
// Machine-range bounds (what any document held in memory satisfies)
// ---------------------------------------------------------------------------

pub open spec fn bounded_thesis(t: ThesisView) -> bool {
    t.l.len() <= usize::MAX && t.s.len() <= usize::MAX && t.x.len() <= usize::MAX
}

pub open spec fn bounded_list(p: (Seq<char>, ListView)) -> bool {
    p.0.len() <= usize::MAX && p.1.name.len() <= usize::MAX && p.1.name_x.len() <= usize::MAX
}

pub open spec fn bounded_amap(p: (Seq<char>, Seq<(usize, AnswerView)>)) -> bool {
    &&& p.0.len() <= usize::MAX
    &&& p.1.len() <= usize::MAX
    &&& forall|i: int| 0 <= i < p.1.len() ==> (#[trigger] p.1[i]).1.statement.len() <= usize::MAX
}

/// Every count and string length fits the machine.  True of every document a
/// process actually holds; needed because the decoder rejects out-of-range
/// numbers.
pub open spec fn bounded_data(d: DataView) -> bool {
    &&& d.theses.len() <= usize::MAX
    &&& d.lists.len() <= usize::MAX
    &&& d.answers.len() <= usize::MAX
    &&& forall|i: int| 0 <= i < d.theses.len() ==> bounded_thesis(#[trigger] d.theses[i])
    &&& forall|i: int| 0 <= i < d.lists.len() ==> bounded_list(#[trigger] d.lists[i])
    &&& forall|i: int| 0 <= i < d.answers.len() ==> bounded_amap(#[trigger] d.answers[i])
}

// ---------------------------------------------------------------------------
// Encoding
// ---------------------------------------------------------------------------

fn enc_str_onto(out: &mut String, v: &str)
    ensures
        final(out)@ == old(out)@ + enc_str(v@),
        v@.len() <= usize::MAX,
{
    let len: usize = v.unicode_len();
    let num = dec_string(len);
    out.append(num.as_str());
    out.append(":");
    out.append(v);
    proof {
        reveal_strlit(":");
        assert(":"@ =~= seq![':']);
        assert(old(out)@ + dec_rep(v@.len()) + seq![':'] + v@ =~= old(out)@ + enc_str(v@));
    }
}

fn enc_amap_onto(out: &mut String, key: &str, am: &AnswerMap)
    ensures
        final(out)@ == old(out)@ + enc_amap((key@, am@)),
        bounded_amap((key@, am@)),
{
    let ghost es = am@;
    enc_str_onto(out, key);
    let n: usize = am.len();
    let num = dec_string(n);
    out.append(num.as_str());
    out.append(";");
    proof {
        reveal_strlit(";");
        assert(";"@ =~= seq![';']);
    }
    let ghost base = out@;
    let mut i: usize = 0;
    while i < n
        invariant
            i <= n,
            n == es.len(),
            es == am@,
            out@ + enc_aentries_from(es, i as int) == base + enc_aentries_from(es, 0),
            forall|j: int| 0 <= j < i ==> (#[trigger] es[j]).1.statement.len() <= usize::MAX,
        decreases n - i,
    {
        let ghost prev = out@;
        let entry = am.entry_at(i);
        let num_i = dec_string(entry.0);
        out.append(num_i.as_str());
        out.append(":");
        out.append(stance_letter(entry.1.selection));
        enc_str_onto(out, entry.1.statement.as_str());
        proof {
            reveal_strlit(":");
            assert(":"@ =~= seq![':']);
            let e = enc_aentry(es[i as int]);
            assert(out@ =~= prev + e);
            assert(e + enc_aentries_from(es, i + 1) == enc_aentries_from(es, i as int));
            assert((prev + e) + enc_aentries_from(es, i + 1) =~= prev + (e + enc_aentries_from(
                es,
                i + 1,
            )));
        }
        i = i + 1;
    }
    proof {
        assert(enc_aentries_from(es, n as int) =~= Seq::<char>::empty());
        assert(out@ + Seq::<char>::empty() =~= out@);
        assert(old(out)@ + enc_str(key@) + dec_rep(es.len()) + seq![';'] + enc_aentries_from(es, 0)
            =~= old(out)@ + enc_amap((key@, es)));
    }
}

/// Serialises the document into its snapshot text.
pub fn snapshot(d: &Data) -> (r: String)
    ensures
        r@ == encode_data(d@),
        bounded_data(d@),
{
    let ghost dv = d@;
    let mut out = String::new();

    // Statements.
    let nt: usize = d.theses.len();
    out.append("T");
    let num_t = dec_string(nt);
    out.append(num_t.as_str());
    out.append(";");
    proof {
        reveal_strlit("T");
        reveal_strlit(";");
        assert("T"@ =~= seq!['T']);
        assert(";"@ =~= seq![';']);
        assert(out@ =~= seq!['T'] + dec_rep(dv.theses.len()) + seq![';']);
    }
    let ghost base_t = out@;
    let mut i: usize = 0;
    while i < nt
        invariant
            i <= nt,
            nt == dv.theses.len(),
            dv == d@,
            base_t == seq!['T'] + dec_rep(dv.theses.len()) + seq![';'],
            out@ + enc_theses_from(dv.theses, i as int) == base_t + enc_theses_from(dv.theses, 0),
            forall|j: int| 0 <= j < i ==> bounded_thesis(#[trigger] dv.theses[j]),
        decreases nt - i,
    {
        let ghost prev = out@;
        let t = &d.theses[i];
        let num_i = dec_string(i);
        out.append(num_i.as_str());
        out.append(":");
        enc_str_onto(&mut out, t.l.as_str());
        enc_str_onto(&mut out, t.s.as_str());
        enc_str_onto(&mut out, t.x.as_str());
        proof {
            reveal_strlit(":");
            assert(":"@ =~= seq![':']);
            assert(t@ == dv.theses[i as int]);
            let e = enc_thesis(i as int, dv.theses[i as int]);
            assert(out@ =~= prev + e);
            assert(e + enc_theses_from(dv.theses, i + 1) == enc_theses_from(dv.theses, i as int));
            assert((prev + e) + enc_theses_from(dv.theses, i + 1) =~= prev + (e + enc_theses_from(
                dv.theses,
                i + 1,
            )));
        }
        i = i + 1;
    }
    proof {
        assert(enc_theses_from(dv.theses, nt as int) =~= Seq::<char>::empty());
        assert(out@ + Seq::<char>::empty() =~= out@);
    }

    // Respondents.
    let nl: usize = d.lists.len();
    out.append("L");
    let num_l = dec_string(nl);
    out.append(num_l.as_str());
    out.append(";");
    proof {
        reveal_strlit("L");
        reveal_strlit(";");
        assert("L"@ =~= seq!['L']);
        assert(";"@ =~= seq![';']);
    }
    let ghost base_l = out@;
    proof {
        assert(base_l =~= base_t + enc_theses_from(dv.theses, 0) + seq!['L'] + dec_rep(
            dv.lists.len(),
        ) + seq![';']);
    }
    let mut i: usize = 0;
    while i < nl
        invariant
            i <= nl,
            nl == dv.lists.len(),
            dv == d@,
            out@ + enc_lists_from(dv.lists, i as int) == base_l + enc_lists_from(dv.lists, 0),
            forall|j: int| 0 <= j < i ==> bounded_list(#[trigger] dv.lists[j]),
        decreases nl - i,
    {
        let ghost prev = out@;
        let key: &String = &d.lists[i].0;
        let entry: &List = &d.lists[i].1;
        enc_str_onto(&mut out, key.as_str());
        enc_str_onto(&mut out, entry.name.as_str());
        enc_str_onto(&mut out, entry.name_x.as_str());
        proof {
            assert((key@, entry@) == dv.lists[i as int]);
            let e = enc_list(dv.lists[i as int]);
            assert(out@ =~= prev + e);
            assert(e + enc_lists_from(dv.lists, i + 1) == enc_lists_from(dv.lists, i as int));
            assert((prev + e) + enc_lists_from(dv.lists, i + 1) =~= prev + (e + enc_lists_from(
                dv.lists,
                i + 1,
            )));
        }
        i = i + 1;
    }
    proof {
        assert(enc_lists_from(dv.lists, nl as int) =~= Seq::<char>::empty());
        assert(out@ + Seq::<char>::empty() =~= out@);
    }

    // Answers.
    let na: usize = d.answers.len();
    out.append("A");
    let num_a = dec_string(na);
    out.append(num_a.as_str());
    out.append(";");
    proof {
        reveal_strlit("A");
        reveal_strlit(";");
        assert("A"@ =~= seq!['A']);
        assert(";"@ =~= seq![';']);
    }
    let ghost base_a = out@;
    proof {
        assert(base_a =~= base_l + enc_lists_from(dv.lists, 0) + seq!['A'] + dec_rep(
            dv.answers.len(),
        ) + seq![';']);
    }
    let mut i: usize = 0;
    while i < na
        invariant
            i <= na,
            na == dv.answers.len(),
            dv == d@,
            out@ + enc_answers_from(dv.answers, i as int) == base_a + enc_answers_from(
                dv.answers,
                0,
            ),
            forall|j: int| 0 <= j < i ==> bounded_amap(#[trigger] dv.answers[j]),
        decreases na - i,
    {
        let ghost prev = out@;
        let key: &String = &d.answers[i].0;
        enc_amap_onto(&mut out, key.as_str(), &d.answers[i].1);
        proof {
            assert((key@, d.answers[i as int].1@) == dv.answers[i as int]);
            let e = enc_amap(dv.answers[i as int]);
            assert(out@ =~= prev + e);
            assert(e + enc_answers_from(dv.answers, i + 1) == enc_answers_from(
                dv.answers,
                i as int,
            ));
            assert((prev + e) + enc_answers_from(dv.answers, i + 1) =~= prev + (e
                + enc_answers_from(dv.answers, i + 1)));
        }
        i = i + 1;
    }
    proof {
        assert(enc_answers_from(dv.answers, na as int) =~= Seq::<char>::empty());
        assert(out@ + Seq::<char>::empty() =~= out@);
        assert(out@ =~= encode_data(dv));
    }
    out
}

// ---------------------------------------------------------------------------
// Decoding: what each production of the snapshot grammar yields
// ---------------------------------------------------------------------------

/// One expected character.
pub open spec fn sd_expect(s: Seq<char>, i: int, c: char) -> Option<int> {
    if 0 <= i < s.len() && s[i] == c {
        Some(i + 1)
    } else {
        None
    }
}

/// A length-prefixed string.
pub open spec fn sd_str(s: Seq<char>, i: int) -> Option<(Seq<char>, int)> {
    match scan_dec_spec(s, i) {
        Some((v, j)) => match sd_expect(s, j, ':') {
            Some(j2) => if j2 + v <= s.len() {
                Some((s.subrange(j2, j2 + v), j2 + v))
            } else {
                None
            },
            None => None,
        },
        None => None,
    }
}

/// One statement, which must carry the expected id `k`.
pub open spec fn sd_thesis(s: Seq<char>, i: int, k: int) -> Option<(ThesisView, int)> {
    match scan_dec_spec(s, i) {
        Some((v, j)) => if v == k {
            match sd_expect(s, j, ':') {
                Some(j2) => match sd_str(s, j2) {
                    Some((l, p1)) => match sd_str(s, p1) {
                        Some((t, p2)) => match sd_str(s, p2) {
                            Some((x, p3)) => Some((ThesisView { l: l, s: t, x: x }, p3)),
                            None => None,
                        },
                        None => None,
                    },
                    None => None,
                },
                None => None,
            }
        } else {
            None
        },
        None => None,
    }
}

/// The statements `k` to `cnt - 1`, under contiguous ids.
pub open spec fn sd_theses(s: Seq<char>, i: int, cnt: int, k: int) -> Option<(Seq<ThesisView>, int)>
    decreases cnt - k,
{
    if k >= cnt {
        Some((Seq::<ThesisView>::empty(), i))
    } else {
        match sd_thesis(s, i, k) {
            Some((t, j)) => match sd_theses(s, j, cnt, k + 1) {
                Some((rest, p)) => Some((seq![t] + rest, p)),
                None => None,
            },
            None => None,
        }
    }
}

/// One respondent.
pub open spec fn sd_list(s: Seq<char>, i: int) -> Option<((Seq<char>, ListView), int)> {
    match sd_str(s, i) {
        Some((key, p1)) => match sd_str(s, p1) {
            Some((name, p2)) => match sd_str(s, p2) {
                Some((name_x, p3)) => Some(
                    ((key, ListView { name: name, name_x: name_x }), p3),
                ),
                None => None,
            },
            None => None,
        },
        None => None,
    }
}

pub open spec fn sd_lists(s: Seq<char>, i: int, cnt: int, k: int) -> Option<
    (Seq<(Seq<char>, ListView)>, int),
>
    decreases cnt - k,
{
    if k >= cnt {
        Some((Seq::<(Seq<char>, ListView)>::empty(), i))
    } else {
        match sd_list(s, i) {
            Some((e, j)) => match sd_lists(s, j, cnt, k + 1) {
                Some((rest, p)) => Some((seq![e] + rest, p)),
                None => None,
            },
            None => None,
        }
    }
}

/// One recorded answer.
pub open spec fn sd_aentry(s: Seq<char>, i: int) -> Option<((usize, AnswerView), int)> {
    match scan_dec_spec(s, i) {
        Some((id, j)) => match sd_expect(s, j, ':') {
            Some(j2) => if j2 < s.len() {
                match stance_of_code(s[j2]) {
                    Some(st) => match sd_str(s, j2 + 1) {
                        Some((txt, p)) => Some(
                            ((id as usize, AnswerView { selection: st, statement: txt }), p),
                        ),
                        None => None,
                    },
                    None => None,
                }
            } else {
                None
            },
            None => None,
        },
        None => None,
    }
}

pub open spec fn sd_aentries(s: Seq<char>, i: int, cnt: int, k: int) -> Option<
    (Seq<(usize, AnswerView)>, int),
>
    decreases cnt - k,
{
    if k >= cnt {
        Some((Seq::<(usize, AnswerView)>::empty(), i))
    } else {
        match sd_aentry(s, i) {
            Some((e, j)) => match sd_aentries(s, j, cnt, k + 1) {
                Some((rest, p)) => Some((seq![e] + rest, p)),
                None => None,
            },
            None => None,
        }
    }
}

/// One respondent's answer sub-map.
pub open spec fn sd_amap(s: Seq<char>, i: int) -> Option<
    ((Seq<char>, Seq<(usize, AnswerView)>), int),
> {
    match sd_str(s, i) {
        Some((key, p1)) => match scan_dec_spec(s, p1) {
            Some((cnt, p2)) => match sd_expect(s, p2, ';') {
                Some(p3) => match sd_aentries(s, p3, cnt, 0) {
                    Some((es, p4)) => Some(((key, es), p4)),
                    None => None,
                },
                None => None,
            },
            None => None,
        },
        None => None,
    }
}

pub open spec fn sd_answers(s: Seq<char>, i: int, cnt: int, k: int) -> Option<
    (Seq<(Seq<char>, Seq<(usize, AnswerView)>)>, int),
>
    decreases cnt - k,
{
    if k >= cnt {
        Some((Seq::<(Seq<char>, Seq<(usize, AnswerView)>)>::empty(), i))
    } else {
        match sd_amap(s, i) {
            Some((e, j)) => match sd_answers(s, j, cnt, k + 1) {
                Some((rest, p)) => Some((seq![e] + rest, p)),
                None => None,
            },
            None => None,
        }
    }
}

/// The whole snapshot: the three marked, counted sections.
pub open spec fn sd_data(s: Seq<char>) -> Option<(DataView, int)> {
    match sd_expect(s, 0, 'T') {
        Some(i1) => match scan_dec_spec(s, i1) {
            Some((nt, i2)) => match sd_expect(s, i2, ';') {
                Some(i3) => match sd_theses(s, i3, nt, 0) {
                    Some((ts, i4)) => match sd_expect(s, i4, 'L') {
                        Some(i5) => match scan_dec_spec(s, i5) {
                            Some((nl, i6)) => match sd_expect(s, i6, ';') {
                                Some(i7) => match sd_lists(s, i7, nl, 0) {
                                    Some((ls, i8)) => match sd_expect(s, i8, 'A') {
                                        Some(i9) => match scan_dec_spec(s, i9) {
                                            Some((na, i10)) => match sd_expect(s, i10, ';') {
                                                Some(i11) => match sd_answers(s, i11, na, 0) {
                                                    Some((as_, p)) => Some(
                                                        (
                                                        DataView {
                                                            theses: ts,
                                                            lists: ls,
                                                            answers: as_,
                                                        },
                                                        p,
                                                        ),
                                                    ),
                                                    None => None,
                                                },
                                                None => None,
                                            },
                                            None => None,
                                        },
                                        None => None,
                                    },
                                    None => None,
                                },
                                None => None,
                            },
                            None => None,
                        },
                        None => None,
                    },
                    None => None,
                },
                None => None,
            },
            None => None,
        },
        None => None,
    }
}

/// Prefixing an already-parsed run onto a parse of the rest.
pub open spec fn compose_parse<T>(pre: Seq<T>, o: Option<(Seq<T>, int)>) -> Option<
    (Seq<T>, int),
> {
    match o {
        Some(r) => Some((pre + r.0, r.1)),
        None => None,
    }
}

// ---------------------------------------------------------------------------
// The decoder
// ---------------------------------------------------------------------------

fn d_expect(s: &str, i: usize, c: char) -> (r: Option<usize>)
    ensures
        match r {
            Some(p) => sd_expect(s@, i as int, c) == Some(p as int) && p as int <= s@.len(),
            None => sd_expect(s@, i as int, c) is None,
        },
{
    if i < s.unicode_len() {
        if s.get_char(i) == c {
            Some(i + 1)
        } else {
            None
        }
    } else {
        None
    }
}

fn d_str<'a>(s: &'a str, i: usize) -> (r: Option<(&'a str, usize)>)
    requires
        i as int <= s@.len(),
    ensures
        match r {
            Some(p) => sd_str(s@, i as int) == Some((p.0@, p.1 as int)) && p.1 as int <= s@.len(),
            None => sd_str(s@, i as int) is None,
        },
{
    match scan_dec(s, i) {
        None => None,
        Some((v, j)) => {
            proof {
                crate::numbers::lemma_digits_end_bounds(s@, i as int);
            }
            match d_expect(s, j, ':') {
                None => None,
                Some(j2) => {
                    let len: usize = s.unicode_len();
                    if v <= len - j2 {
                        Some((s.substring_char(j2, j2 + v), j2 + v))
                    } else {
                        None
                    }
                },
            }
        },
    }
}

fn d_thesis<'a>(s: &'a str, i: usize, k: usize) -> (r: Option<(Thesis, usize)>)
    requires
        i as int <= s@.len(),
    ensures
        match r {
            Some(p) => sd_thesis(s@, i as int, k as int) == Some((p.0@, p.1 as int)) && p.1 as int
                <= s@.len(),
            None => sd_thesis(s@, i as int, k as int) is None,
        },
{
    match scan_dec(s, i) {
        None => None,
        Some((v, j)) => {
            if v != k {
                return None;
            }
            proof {
                crate::numbers::lemma_digits_end_bounds(s@, i as int);
            }
            match d_expect(s, j, ':') {
                None => None,
                Some(j2) => match d_str(s, j2) {
                    None => None,
                    Some((l, p1)) => match d_str(s, p1) {
                        None => None,
                        Some((t, p2)) => match d_str(s, p2) {
                            None => None,
                            Some((x, p3)) => Some(
                                (
                                    Thesis {
                                        l: String::from_str(l),
                                        s: String::from_str(t),
                                        x: String::from_str(x),
                                    },
                                    p3,
                                ),
                            ),
                        },
                    },
                },
            }
        },
    }
}

fn d_theses<'a>(s: &'a str, i: usize, cnt: usize) -> (r: Option<(Vec<Thesis>, usize)>)
    requires
        i as int <= s@.len(),
    ensures
        match r {
            Some(p) => sd_theses(s@, i as int, cnt as int, 0) == Some(
                (p.0@.map_values(|t: Thesis| t@), p.1 as int),
            ) && p.1 as int <= s@.len(),
            None => sd_theses(s@, i as int, cnt as int, 0) is None,
        },
{
    let mut out: Vec<Thesis> = Vec::new();
    let mut pos: usize = i;
    let mut k: usize = 0;
    proof {
        assert(out@.map_values(|t: Thesis| t@) =~= Seq::<ThesisView>::empty());
    }
    while k < cnt
        invariant
            k <= cnt,
            pos as int <= s@.len(),
            sd_theses(s@, i as int, cnt as int, 0) == compose_parse(
                out@.map_values(|t: Thesis| t@),
                sd_theses(s@, pos as int, cnt as int, k as int),
            ),
        decreases cnt - k,
    {
        let ghost outv = out@.map_values(|t: Thesis| t@);
        match d_thesis(s, pos, k) {
            None => {
                return None;
            },
            Some((t, j)) => {
                proof {
                    let o = sd_theses(s@, j as int, cnt as int, k + 1);
                    if o is Some {
                        let rest = o.unwrap().0;
                        assert(outv + (seq![t@] + rest) =~= outv.push(t@) + rest);
                    }
                    assert(out@.push(t).map_values(|t: Thesis| t@) =~= outv.push(t@));
                }
                out.push(t);
                pos = j;
                k = k + 1;
            },
        }
    }
    proof {
        let outv = out@.map_values(|t: Thesis| t@);
        assert(outv + Seq::<ThesisView>::empty() =~= outv);
    }
    Some((out, pos))
}

fn d_list<'a>(s: &'a str, i: usize) -> (r: Option<((String, List), usize)>)
    requires
        i as int <= s@.len(),
    ensures
        match r {
            Some(p) => sd_list(s@, i as int) == Some(((p.0.0@, p.0.1@), p.1 as int)) && p.1 as int
                <= s@.len(),
            None => sd_list(s@, i as int) is None,
        },
{
    match d_str(s, i) {
        None => None,
        Some((key, p1)) => match d_str(s, p1) {
            None => None,
            Some((name, p2)) => match d_str(s, p2) {
                None => None,
                Some((name_x, p3)) => Some(
                    (
                        (
                            String::from_str(key),
                            List { name: String::from_str(name), name_x: String::from_str(name_x) },
                        ),
                        p3,
                    ),
                ),
            },
        },
    }
}

fn d_lists<'a>(s: &'a str, i: usize, cnt: usize) -> (r: Option<(Vec<(String, List)>, usize)>)
    requires
        i as int <= s@.len(),
    ensures
        match r {
            Some(p) => sd_lists(s@, i as int, cnt as int, 0) == Some(
                (p.0@.map_values(|q: (String, List)| (q.0@, q.1@)), p.1 as int),
            ) && p.1 as int <= s@.len(),
            None => sd_lists(s@, i as int, cnt as int, 0) is None,
        },
{
    let mut out: Vec<(String, List)> = Vec::new();
    let mut pos: usize = i;
    let mut k: usize = 0;
    proof {
        assert(out@.map_values(|q: (String, List)| (q.0@, q.1@)) =~= Seq::<
            (Seq<char>, ListView),
        >::empty());
    }
    while k < cnt
        invariant
            k <= cnt,
            pos as int <= s@.len(),
            sd_lists(s@, i as int, cnt as int, 0) == compose_parse(
                out@.map_values(|q: (String, List)| (q.0@, q.1@)),
                sd_lists(s@, pos as int, cnt as int, k as int),
            ),
        decreases cnt - k,
    {
        let ghost outv = out@.map_values(|q: (String, List)| (q.0@, q.1@));
        match d_list(s, pos) {
            None => {
                return None;
            },
            Some((e, j)) => {
                proof {
                    let o = sd_lists(s@, j as int, cnt as int, k + 1);
                    if o is Some {
                        let rest = o.unwrap().0;
                        assert(outv + (seq![(e.0@, e.1@)] + rest) =~= outv.push((e.0@, e.1@))
                            + rest);
                    }
                    assert(out@.push(e).map_values(|q: (String, List)| (q.0@, q.1@)) =~= outv.push(
                        (e.0@, e.1@),
                    ));
                }
                out.push(e);
                pos = j;
                k = k + 1;
            },
        }
    }
    proof {
        let outv = out@.map_values(|q: (String, List)| (q.0@, q.1@));
        assert(outv + Seq::<(Seq<char>, ListView)>::empty() =~= outv);
    }
    Some((out, pos))
}

fn d_aentry<'a>(s: &'a str, i: usize) -> (r: Option<((usize, Answer), usize)>)
    requires
        i as int <= s@.len(),
    ensures
        match r {
            Some(p) => sd_aentry(s@, i as int) == Some(((p.0.0, p.0.1@), p.1 as int)) && p.1 as int
                <= s@.len(),
            None => sd_aentry(s@, i as int) is None,
        },
{
    match scan_dec(s, i) {
        None => None,
        Some((id, j)) => {
            proof {
                crate::numbers::lemma_digits_end_bounds(s@, i as int);
            }
            match d_expect(s, j, ':') {
                None => None,
                Some(j2) => {
                    if j2 < s.unicode_len() {
                        match parse_stance_code(s.get_char(j2)) {
                            None => None,
                            Some(st) => match d_str(s, j2 + 1) {
                                None => None,
                                Some((txt, p)) => Some(
                                    (
                                        (
                                            id,
                                            Answer {
                                                selection: st,
                                                statement: String::from_str(txt),
                                            },
                                        ),
                                        p,
                                    ),
                                ),
                            },
                        }
                    } else {
                        None
                    }
                },
            }
        },
    }
}

fn d_aentries<'a>(s: &'a str, i: usize, cnt: usize) -> (r: Option<(Vec<(usize, Answer)>, usize)>)
    requires
        i as int <= s@.len(),
    ensures
        match r {
            Some(p) => sd_aentries(s@, i as int, cnt as int, 0) == Some(
                (p.0@.map_values(|q: (usize, Answer)| (q.0, q.1@)), p.1 as int),
            ) && p.1 as int <= s@.len(),
            None => sd_aentries(s@, i as int, cnt as int, 0) is None,
        },
{
    let mut out: Vec<(usize, Answer)> = Vec::new();
    let mut pos: usize = i;
    let mut k: usize = 0;
    proof {
        assert(out@.map_values(|q: (usize, Answer)| (q.0, q.1@)) =~= Seq::<
            (usize, AnswerView),
        >::empty());
    }
    while k < cnt
        invariant
            k <= cnt,
            pos as int <= s@.len(),
            sd_aentries(s@, i as int, cnt as int, 0) == compose_parse(
                out@.map_values(|q: (usize, Answer)| (q.0, q.1@)),
                sd_aentries(s@, pos as int, cnt as int, k as int),
            ),
        decreases cnt - k,
    {
        let ghost outv = out@.map_values(|q: (usize, Answer)| (q.0, q.1@));
        match d_aentry(s, pos) {
            None => {
                return None;
            },
            Some((e, j)) => {
                proof {
                    let o = sd_aentries(s@, j as int, cnt as int, k + 1);
                    if o is Some {
                        let rest = o.unwrap().0;
                        assert(outv + (seq![(e.0, e.1@)] + rest) =~= outv.push((e.0, e.1@)) + rest);
                    }
                    assert(out@.push(e).map_values(|q: (usize, Answer)| (q.0, q.1@)) =~= outv.push(
                        (e.0, e.1@),
                    ));
                }
                out.push(e);
                pos = j;
                k = k + 1;
            },
        }
    }
    proof {
        let outv = out@.map_values(|q: (usize, Answer)| (q.0, q.1@));
        assert(outv + Seq::<(usize, AnswerView)>::empty() =~= outv);
    }
    Some((out, pos))
}

fn d_amap<'a>(s: &'a str, i: usize) -> (r: Option<((String, Vec<(usize, Answer)>), usize)>)
    requires
        i as int <= s@.len(),
    ensures
        match r {
            Some(p) => sd_amap(s@, i as int) == Some(
                ((p.0.0@, p.0.1@.map_values(|q: (usize, Answer)| (q.0, q.1@))), p.1 as int),
            ) && p.1 as int <= s@.len(),
            None => sd_amap(s@, i as int) is None,
        },
{
    match d_str(s, i) {
        None => None,
        Some((key, p1)) => match scan_dec(s, p1) {
            None => None,
            Some((cnt, p2)) => {
                proof {
                    crate::numbers::lemma_digits_end_bounds(s@, p1 as int);
                }
                match d_expect(s, p2, ';') {
                    None => None,
                    Some(p3) => match d_aentries(s, p3, cnt) {
                        None => None,
                        Some((es, p4)) => Some(((String::from_str(key), es), p4)),
                    },
                }
            },
        },
    }
}

fn d_answers<'a>(s: &'a str, i: usize, cnt: usize) -> (r: Option<
    (Vec<(String, Vec<(usize, Answer)>)>, usize),
>)
    requires
        i as int <= s@.len(),
    ensures
        match r {
            Some(p) => sd_answers(s@, i as int, cnt as int, 0) == Some(
                (
                    p.0@.map_values(
                        |q: (String, Vec<(usize, Answer)>)|
                            (q.0@, q.1@.map_values(|e: (usize, Answer)| (e.0, e.1@))),
                    ),
                    p.1 as int,
                ),
            ) && p.1 as int <= s@.len(),
            None => sd_answers(s@, i as int, cnt as int, 0) is None,
        },
{
    let mut out: Vec<(String, Vec<(usize, Answer)>)> = Vec::new();
    let mut pos: usize = i;
    let mut k: usize = 0;
    proof {
        assert(out@.map_values(
            |q: (String, Vec<(usize, Answer)>)|
                (q.0@, q.1@.map_values(|e: (usize, Answer)| (e.0, e.1@))),
        ) =~= Seq::<(Seq<char>, Seq<(usize, AnswerView)>)>::empty());
    }
    while k < cnt
        invariant
            k <= cnt,
            pos as int <= s@.len(),
            sd_answers(s@, i as int, cnt as int, 0) == compose_parse(
                out@.map_values(
                    |q: (String, Vec<(usize, Answer)>)|
                        (q.0@, q.1@.map_values(|e: (usize, Answer)| (e.0, e.1@))),
                ),
                sd_answers(s@, pos as int, cnt as int, k as int),
            ),
        decreases cnt - k,
    {
        let ghost outv = out@.map_values(
            |q: (String, Vec<(usize, Answer)>)|
                (q.0@, q.1@.map_values(|e: (usize, Answer)| (e.0, e.1@))),
        );
        match d_amap(s, pos) {
            None => {
                return None;
            },
            Some((e, j)) => {
                proof {
                    let ev = (e.0@, e.1@.map_values(|q: (usize, Answer)| (q.0, q.1@)));
                    let o = sd_answers(s@, j as int, cnt as int, k + 1);
                    if o is Some {
                        let rest = o.unwrap().0;
                        assert(outv + (seq![ev] + rest) =~= outv.push(ev) + rest);
                    }
                    assert(out@.push(e).map_values(
                        |q: (String, Vec<(usize, Answer)>)|
                            (q.0@, q.1@.map_values(|e2: (usize, Answer)| (e2.0, e2.1@))),
                    ) =~= outv.push(ev));
                }
                out.push(e);
                pos = j;
                k = k + 1;
            },
        }
    }
    proof {
        let outv = out@.map_values(
            |q: (String, Vec<(usize, Answer)>)|
                (q.0@, q.1@.map_values(|e: (usize, Answer)| (e.0, e.1@))),
        );
        assert(outv + Seq::<(Seq<char>, Seq<(usize, AnswerView)>)>::empty() =~= outv);
    }
    Some((out, pos))
}

/// Parses snapshot text back into a document.  `InvalidState` when the text
/// is not a whole well-formed snapshot: malformed or trailing characters,
/// an id out of sequence, an unknown stance code, or a duplicate key.
pub fn read_data(text: &str) -> (r: Result<Data, DataError>)
    ensures
        match r {
            Ok(d) => {
                &&& d.wf()
                &&& sd_data(text@) == Some((d@, text@.len() as int))
            },
            Err(e) => {
                &&& e == DataError::InvalidState
                &&& match sd_data(text@) {
                    Some(p) => p.1 != text@.len() || !p.0.wf(),
                    None => true,
                }
            },
        },
{
    let len: usize = text.unicode_len();
    let i1: usize = match d_expect(text, 0, 'T') {
        Some(x) => x,
        None => {
            return Err(DataError::InvalidState);
        },
    };
    let (nt, i2): (usize, usize) = match scan_dec(text, i1) {
        Some(x) => x,
        None => {
            return Err(DataError::InvalidState);
        },
    };
    proof {
        crate::numbers::lemma_digits_end_bounds(text@, i1 as int);
    }
    let i3: usize = match d_expect(text, i2, ';') {
        Some(x) => x,
        None => {
            return Err(DataError::InvalidState);
        },
    };
    let (theses, i4): (Vec<Thesis>, usize) = match d_theses(text, i3, nt) {
        Some(x) => x,
        None => {
            return Err(DataError::InvalidState);
        },
    };
    let i5: usize = match d_expect(text, i4, 'L') {
        Some(x) => x,
        None => {
            return Err(DataError::InvalidState);
        },
    };
    let (nl, i6): (usize, usize) = match scan_dec(text, i5) {
        Some(x) => x,
        None => {
            return Err(DataError::InvalidState);
        },
    };
    proof {
        crate::numbers::lemma_digits_end_bounds(text@, i5 as int);
    }
    let i7: usize = match d_expect(text, i6, ';') {
        Some(x) => x,
        None => {
            return Err(DataError::InvalidState);
        },
    };
    let (lists, i8): (Vec<(String, List)>, usize) = match d_lists(text, i7, nl) {
        Some(x) => x,
        None => {
            return Err(DataError::InvalidState);
        },
    };
    let i9: usize = match d_expect(text, i8, 'A') {
        Some(x) => x,
        None => {
            return Err(DataError::InvalidState);
        },
    };
    let (na, i10): (usize, usize) = match scan_dec(text, i9) {
        Some(x) => x,
        None => {
            return Err(DataError::InvalidState);
        },
    };
    proof {
        crate::numbers::lemma_digits_end_bounds(text@, i9 as int);
    }
    let i11: usize = match d_expect(text, i10, ';') {
        Some(x) => x,
        None => {
            return Err(DataError::InvalidState);
        },
    };
    let (answers_raw, p): (Vec<(String, Vec<(usize, Answer)>)>, usize) = match d_answers(
        text,
        i11,
        na,
    ) {
        Some(x) => x,
        None => {
            return Err(DataError::InvalidState);
        },
    };
    if p != len {
        return Err(DataError::InvalidState);
    }
    let ghost dv = sd_data(text@).unwrap().0;

    // Key uniqueness across the decoded document.
    if !check_unique_string_keys(&lists) {
        proof {
            assert(!dv.wf()) by {
                assert(dv.lists == lists@.map_values(|q: (String, List)| (q.0@, q.1@)));
                let (pp, qq) = choose|pp: int, qq: int|
                    0 <= pp < qq < lists@.len() && (#[trigger] lists@[pp]).0@ == (
                    #[trigger] lists@[qq]).0@;
                assert(dv.lists[pp].0 == dv.lists[qq].0);
            }
        }
        return Err(DataError::InvalidState);
    }
    if !check_unique_string_keys(&answers_raw) {
        proof {
            assert(!dv.wf()) by {
                let (pp, qq) = choose|pp: int, qq: int|
                    0 <= pp < qq < answers_raw@.len() && (#[trigger] answers_raw@[pp]).0@ == (
                    #[trigger] answers_raw@[qq]).0@;
                assert(dv.answers[pp].0 == dv.answers[qq].0);
            }
        }
        return Err(DataError::InvalidState);
    }
    let ghost raw = answers_raw@;
    let na2: usize = answers_raw.len();
    let mut answers: Vec<(String, AnswerMap)> = Vec::new();
    let mut idx: usize = 0;
    let mut rest = answers_raw;
    proof {
        assert(rest@ =~= raw.subrange(0, raw.len() as int));
    }
    // Consume the raw vector from the front, wrapping each entry list.
    while idx < na2
        invariant
            idx <= na2,
            na2 == raw.len(),
            rest@ == raw.subrange(idx as int, raw.len() as int),
            answers@.len() == idx,
            forall|j: int|
                0 <= j < idx ==> (#[trigger] answers@[j]).0@ == raw[j].0@ && answers@[j].1@
                    == raw[j].1@.map_values(|e: (usize, Answer)| (e.0, e.1@)) && unique_keys(
                    answers@[j].1@,
                ),
            dv == sd_data(text@).unwrap().0,
            dv.answers == raw.map_values(
                |q: (String, Vec<(usize, Answer)>)|
                    (q.0@, q.1@.map_values(|e: (usize, Answer)| (e.0, e.1@))),
            ),
        decreases na2 - idx,
    {
        let (key, entries) = rest.remove(0);
        proof {
            assert(raw.subrange(idx as int, raw.len() as int)[0] == raw[idx as int]);
            assert(rest@ =~= raw.subrange(idx + 1, raw.len() as int));
            assert(key@ == raw[idx as int].0@);
            assert(entries@ == raw[idx as int].1@);
        }
        let am: AnswerMap = match AnswerMap::from_entries(entries) {
            Some(x) => x,
            None => {
                proof {
                    assert(!dv.wf()) by {
                        assert(dv.answers[idx as int].1 == raw[idx as int].1@.map_values(
                            |e: (usize, Answer)| (e.0, e.1@),
                        ));
                    }
                }
                return Err(DataError::InvalidState);
            },
        };
        answers.push((key, am));
        idx = idx + 1;
    }
    let d = Data { theses, lists, answers };
    proof {
        assert(d@.theses == dv.theses);
        assert(d@.lists == dv.lists);
        assert(d@.answers =~= dv.answers) by {
            assert forall|j: int| 0 <= j < dv.answers.len() implies d@.answers[j]
                == dv.answers[j] by {
                assert(d@.answers[j] == (answers@[j].0@, answers@[j].1@));
            }
        }
        assert(d@ =~= dv);
        assert(d@.wf()) by {
            assert(unique_keys(d@.lists)) by {
                assert forall|pp: int, qq: int|
                    0 <= pp < qq < d@.lists.len() implies (#[trigger] d@.lists[pp]).0 != (
                #[trigger] d@.lists[qq]).0 by {
                    assert(d@.lists[pp].0 == lists@[pp].0@);
                    assert(d@.lists[qq].0 == lists@[qq].0@);
                }
            }
            assert(unique_keys(d@.answers)) by {
                assert forall|pp: int, qq: int|
                    0 <= pp < qq < d@.answers.len() implies (#[trigger] d@.answers[pp]).0 != (
                #[trigger] d@.answers[qq]).0 by {
                    assert(d@.answers[pp].0 == raw[pp].0@);
                    assert(d@.answers[qq].0 == raw[qq].0@);
                }
            }
            assert(forall|j: int|
                0 <= j < d@.answers.len() ==> unique_keys((#[trigger] d@.answers[j]).1));
        }
    }
    Ok(d)
}

// ---------------------------------------------------------------------------
// Round trip: decoding an encoded document yields it back
// ---------------------------------------------------------------------------

/// Concatenation associates.
proof fn lemma_assoc(a: Seq<char>, b: Seq<char>, c: Seq<char>)
    ensures
        (a + b) + c == a + (b + c),
{
    assert((a + b) + c =~= a + (b + c));
}

/// Splits knowledge of a two-part window into knowledge of its parts.
proof fn lemma_peel(s: Seq<char>, i: int, a: Seq<char>, b: Seq<char>)
    requires
        0 <= i,
        i + a.len() + b.len() <= s.len(),
        s.subrange(i, i + a.len() + b.len()) == a + b,
    ensures
        s.subrange(i, i + a.len()) == a,
        s.subrange(i + a.len(), i + a.len() + b.len()) == b,
{
    assert(s.subrange(i, i + a.len()) =~= a) by {
        assert forall|j: int| 0 <= j < a.len() implies s.subrange(i, i + a.len())[j] == a[j] by {
            assert(s[i + j] == (a + b)[j]);
        }
    }
    assert(s.subrange(i + a.len(), i + a.len() + b.len()) =~= b) by {
        assert forall|j: int|
            0 <= j < b.len() implies s.subrange(i + a.len(), i + a.len() + b.len())[j] == b[j] by {
            assert(s[i + a.len() + j] == (a + b)[a.len() + j]);
        }
    }
}

/// A canonical decimal followed by a non-digit scans back to its value.
proof fn lemma_rt_num(s: Seq<char>, i: int, n: nat)
    requires
        n <= usize::MAX,
        0 <= i,
        i + dec_rep(n).len() <= s.len(),
        s.subrange(i, i + dec_rep(n).len()) == dec_rep(n),
        i + dec_rep(n).len() == s.len() || !is_digit(s[i + dec_rep(n).len()]),
    ensures
        scan_dec_spec(s, i) == Some((n as int, i + dec_rep(n).len())),
{
    let d = dec_rep(n);
    lemma_dec_rep_digits(n);
    assert forall|j: int| i <= j < i + d.len() implies is_digit(s[j]) by {
        assert(s[j] == s.subrange(i, i + d.len())[j - i]);
    }
    lemma_digits_end_exact(s, i, i + d.len());
    assert(dec_val(s.subrange(i, i + d.len())) == n) by {
        lemma_dec_val_dec_rep(n);
    }
}

/// A length-prefixed string decodes back to itself.
proof fn lemma_rt_str(s: Seq<char>, i: int, t: Seq<char>)
    requires
        t.len() <= usize::MAX,
        0 <= i,
        i + enc_str(t).len() <= s.len(),
        s.subrange(i, i + enc_str(t).len()) == enc_str(t),
    ensures
        sd_str(s, i) == Some((t, i + enc_str(t).len())),
{
    let d = dec_rep(t.len());
    let rest = seq![':'] + t;
    assert(enc_str(t) =~= d + rest);
    assert(enc_str(t).len() == d.len() + 1 + t.len());
    lemma_peel(s, i, d, rest);
    let m = i + d.len();
    assert(s[m] == ':') by {
        assert(s[m] == s.subrange(m, m + rest.len())[0]);
    }
    assert(!is_digit(':'));
    lemma_rt_num(s, i, t.len());
    lemma_peel(s, m, seq![':'], t);
    assert(sd_expect(s, m, ':') == Some(m + 1));
    assert(s.subrange(m + 1, m + 1 + t.len()) == t);
}

/// One encoded statement decodes back to itself under its id.
proof fn lemma_rt_thesis(s: Seq<char>, i: int, k: int, t: ThesisView)
    requires
        0 <= k <= usize::MAX,
        bounded_thesis(t),
        0 <= i,
        i + enc_thesis(k, t).len() <= s.len(),
        s.subrange(i, i + enc_thesis(k, t).len()) == enc_thesis(k, t),
    ensures
        sd_thesis(s, i, k) == Some((t, i + enc_thesis(k, t).len())),
{
    let d = dec_rep(k as nat);
    let e1 = enc_str(t.l);
    let e2 = enc_str(t.s);
    let e3 = enc_str(t.x);
    let r1 = seq![':'] + (e1 + (e2 + e3));
    assert(enc_thesis(k, t) =~= d + r1);
    assert(enc_thesis(k, t).len() == d.len() + 1 + e1.len() + e2.len() + e3.len());
    lemma_peel(s, i, d, r1);
    let m = i + d.len();
    assert(s[m] == ':') by {
        assert(s[m] == s.subrange(m, m + r1.len())[0]);
    }
    lemma_rt_num(s, i, k as nat);
    assert((seq![':'] + (e1 + (e2 + e3))).len() == 1 + e1.len() + e2.len() + e3.len());
    lemma_peel(s, m, seq![':'], e1 + (e2 + e3));
    lemma_peel(s, m + 1, e1, e2 + e3);
    lemma_rt_str(s, m + 1, t.l);
    lemma_peel(s, m + 1 + e1.len(), e2, e3);
    lemma_rt_str(s, m + 1 + e1.len(), t.s);
    lemma_rt_str(s, m + 1 + e1.len() + e2.len(), t.x);
    assert(sd_expect(s, m, ':') == Some(m + 1));
}

/// An encoded run of statements decodes back to it, id for id.
proof fn lemma_rt_theses(s: Seq<char>, i: int, ts: Seq<ThesisView>, k: int)
    requires
        0 <= k <= ts.len(),
        ts.len() <= usize::MAX,
        forall|j: int| 0 <= j < ts.len() ==> bounded_thesis(#[trigger] ts[j]),
        0 <= i,
        i + enc_theses_from(ts, k).len() <= s.len(),
        s.subrange(i, i + enc_theses_from(ts, k).len()) == enc_theses_from(ts, k),
    ensures
        sd_theses(s, i, ts.len() as int, k) == Some(
            (ts.subrange(k, ts.len() as int), i + enc_theses_from(ts, k).len()),
        ),
    decreases ts.len() - k,
{
    if k >= ts.len() {
        assert(ts.subrange(k, ts.len() as int) =~= Seq::<ThesisView>::empty());
    } else {
        let e = enc_thesis(k, ts[k]);
        let rest = enc_theses_from(ts, k + 1);
        assert(enc_theses_from(ts, k) == e + rest);
        lemma_peel(s, i, e, rest);
        lemma_rt_thesis(s, i, k, ts[k]);
        lemma_rt_theses(s, i + e.len(), ts, k + 1);
        assert(seq![ts[k]] + ts.subrange(k + 1, ts.len() as int) =~= ts.subrange(
            k,
            ts.len() as int,
        ));
    }
}

/// One encoded respondent decodes back to itself.
proof fn lemma_rt_list(s: Seq<char>, i: int, p: (Seq<char>, ListView))
    requires
        bounded_list(p),
        0 <= i,
        i + enc_list(p).len() <= s.len(),
        s.subrange(i, i + enc_list(p).len()) == enc_list(p),
    ensures
        sd_list(s, i) == Some((p, i + enc_list(p).len())),
{
    let e1 = enc_str(p.0);
    let e2 = enc_str(p.1.name);
    let e3 = enc_str(p.1.name_x);
    assert(enc_list(p) =~= e1 + (e2 + e3));
    assert(enc_list(p).len() == e1.len() + e2.len() + e3.len());
    lemma_peel(s, i, e1, e2 + e3);
    lemma_rt_str(s, i, p.0);
    lemma_peel(s, i + e1.len(), e2, e3);
    lemma_rt_str(s, i + e1.len(), p.1.name);
    lemma_rt_str(s, i + e1.len() + e2.len(), p.1.name_x);
}

proof fn lemma_rt_lists(s: Seq<char>, i: int, ls: Seq<(Seq<char>, ListView)>, k: int)
    requires
        0 <= k <= ls.len(),
        ls.len() <= usize::MAX,
        forall|j: int| 0 <= j < ls.len() ==> bounded_list(#[trigger] ls[j]),
        0 <= i,
        i + enc_lists_from(ls, k).len() <= s.len(),
        s.subrange(i, i + enc_lists_from(ls, k).len()) == enc_lists_from(ls, k),
    ensures
        sd_lists(s, i, ls.len() as int, k) == Some(
            (ls.subrange(k, ls.len() as int), i + enc_lists_from(ls, k).len()),
        ),
    decreases ls.len() - k,
{
    if k >= ls.len() {
        assert(ls.subrange(k, ls.len() as int) =~= Seq::<(Seq<char>, ListView)>::empty());
    } else {
        let e = enc_list(ls[k]);
        let rest = enc_lists_from(ls, k + 1);
        assert(enc_lists_from(ls, k) == e + rest);
        lemma_peel(s, i, e, rest);
        lemma_rt_list(s, i, ls[k]);
        lemma_rt_lists(s, i + e.len(), ls, k + 1);
        assert(seq![ls[k]] + ls.subrange(k + 1, ls.len() as int) =~= ls.subrange(
            k,
            ls.len() as int,
        ));
    }
}

/// One encoded answer entry decodes back to itself.
proof fn lemma_rt_aentry(s: Seq<char>, i: int, e: (usize, AnswerView))
    requires
        e.1.statement.len() <= usize::MAX,
        0 <= i,
        i + enc_aentry(e).len() <= s.len(),
        s.subrange(i, i + enc_aentry(e).len()) == enc_aentry(e),
    ensures
        sd_aentry(s, i) == Some((e, i + enc_aentry(e).len())),
{
    let d = dec_rep(e.0 as nat);
    let sc = seq![stance_code(e.1.selection)];
    let et = enc_str(e.1.statement);
    let r1 = seq![':'] + (sc + et);
    assert(enc_aentry(e) =~= d + r1);
    assert(enc_aentry(e).len() == d.len() + 2 + et.len());
    lemma_peel(s, i, d, r1);
    let m = i + d.len();
    assert(s[m] == ':') by {
        assert(s[m] == s.subrange(m, m + r1.len())[0]);
    }
    lemma_rt_num(s, i, e.0 as nat);
    lemma_peel(s, m, seq![':'], sc + et);
    lemma_peel(s, m + 1, sc, et);
    assert(s[m + 1] == stance_code(e.1.selection)) by {
        assert(s[m + 1] == s.subrange(m + 1, m + 1 + 1)[0]);
    }
    assert(stance_of_code(stance_code(e.1.selection)) == Some(e.1.selection));
    lemma_rt_str(s, m + 2, e.1.statement);
    assert(sd_expect(s, m, ':') == Some(m + 1));
}

proof fn lemma_rt_aentries(s: Seq<char>, i: int, es: Seq<(usize, AnswerView)>, k: int)
    requires
        0 <= k <= es.len(),
        es.len() <= usize::MAX,
        forall|j: int| 0 <= j < es.len() ==> (#[trigger] es[j]).1.statement.len() <= usize::MAX,
        0 <= i,
        i + enc_aentries_from(es, k).len() <= s.len(),
        s.subrange(i, i + enc_aentries_from(es, k).len()) == enc_aentries_from(es, k),
    ensures
        sd_aentries(s, i, es.len() as int, k) == Some(
            (es.subrange(k, es.len() as int), i + enc_aentries_from(es, k).len()),
        ),
    decreases es.len() - k,
{
    if k >= es.len() {
        assert(es.subrange(k, es.len() as int) =~= Seq::<(usize, AnswerView)>::empty());
    } else {
        let e = enc_aentry(es[k]);
        let rest = enc_aentries_from(es, k + 1);
        assert(enc_aentries_from(es, k) == e + rest);
        lemma_peel(s, i, e, rest);
        lemma_rt_aentry(s, i, es[k]);
        lemma_rt_aentries(s, i + e.len(), es, k + 1);
        assert(seq![es[k]] + es.subrange(k + 1, es.len() as int) =~= es.subrange(
            k,
            es.len() as int,
        ));
    }
}

/// One encoded answer sub-map decodes back to itself.
proof fn lemma_rt_amap(s: Seq<char>, i: int, p: (Seq<char>, Seq<(usize, AnswerView)>))
    requires
        bounded_amap(p),
        0 <= i,
        i + enc_amap(p).len() <= s.len(),
        s.subrange(i, i + enc_amap(p).len()) == enc_amap(p),
    ensures
        sd_amap(s, i) == Some((p, i + enc_amap(p).len())),
{
    let e1 = enc_str(p.0);
    let d = dec_rep(p.1.len());
    let body = enc_aentries_from(p.1, 0);
    let r1 = d + (seq![';'] + body);
    assert(enc_amap(p) =~= e1 + r1);
    assert(enc_amap(p).len() == e1.len() + d.len() + 1 + body.len());
    lemma_peel(s, i, e1, r1);
    lemma_rt_str(s, i, p.0);
    let m = i + e1.len();
    lemma_peel(s, m, d, seq![';'] + body);
    assert(s[m + d.len()] == ';') by {
        assert(s[m + d.len()] == s.subrange(m + d.len(), m + d.len() + 1 + body.len())[0]);
    }
    lemma_rt_num(s, m, p.1.len());
    lemma_peel(s, m + d.len(), seq![';'], body);
    lemma_rt_aentries(s, m + d.len() + 1, p.1, 0);
    assert(p.1.subrange(0, p.1.len() as int) =~= p.1);
    assert(sd_expect(s, m + d.len(), ';') == Some(m + d.len() + 1));
}

proof fn lemma_rt_answers(
    s: Seq<char>,
    i: int,
    as_: Seq<(Seq<char>, Seq<(usize, AnswerView)>)>,
    k: int,
)
    requires
        0 <= k <= as_.len(),
        as_.len() <= usize::MAX,
        forall|j: int| 0 <= j < as_.len() ==> bounded_amap(#[trigger] as_[j]),
        0 <= i,
        i + enc_answers_from(as_, k).len() <= s.len(),
        s.subrange(i, i + enc_answers_from(as_, k).len()) == enc_answers_from(as_, k),
    ensures
        sd_answers(s, i, as_.len() as int, k) == Some(
            (as_.subrange(k, as_.len() as int), i + enc_answers_from(as_, k).len()),
        ),
    decreases as_.len() - k,
{
    if k >= as_.len() {
        assert(as_.subrange(k, as_.len() as int) =~= Seq::<
            (Seq<char>, Seq<(usize, AnswerView)>),
        >::empty());
    } else {
        let e = enc_amap(as_[k]);
        let rest = enc_answers_from(as_, k + 1);
        assert(enc_answers_from(as_, k) == e + rest);
        lemma_peel(s, i, e, rest);
        lemma_rt_amap(s, i, as_[k]);
        lemma_rt_answers(s, i + e.len(), as_, k + 1);
        assert(seq![as_[k]] + as_.subrange(k + 1, as_.len() as int) =~= as_.subrange(
            k,
            as_.len() as int,
        ));
    }
}

/// The snapshot round trip: decoding an encoded document yields an identical
/// document — statements, respondents, answers and every field value.
/// Together with the contracts of `snapshot` and `read_data` this says that
/// persisting a well-formed document and loading it back loses nothing.
#[verifier::rlimit(100)]
#[verifier::spinoff_prover]
pub proof fn lemma_snapshot_round_trip(dv: DataView)
    requires
        bounded_data(dv),
    ensures
        sd_data(encode_data(dv)) == Some((dv, encode_data(dv).len() as int)),
{
    let s = encode_data(dv);
    let dt = dec_rep(dv.theses.len());
    let ft = enc_theses_from(dv.theses, 0);
    let dl = dec_rep(dv.lists.len());
    let fl = enc_lists_from(dv.lists, 0);
    let da = dec_rep(dv.answers.len());
    let fa = enc_answers_from(dv.answers, 0);
    // The snapshot, right-nested so that each production can be peeled off
    // the front in turn.
    let r11 = fa;
    let r10 = seq![';'] + r11;
    let r9 = da + r10;
    let r8 = seq!['A'] + r9;
    let r7 = fl + r8;
    let r6 = seq![';'] + r7;
    let r5 = dl + r6;
    let r4 = seq!['L'] + r5;
    let r3 = ft + r4;
    let r2 = seq![';'] + r3;
    let r1 = dt + r2;
    let r0 = seq!['T'] + r1;
    let q1 = seq!['T'];
    let q2 = q1 + dt;
    let q3 = q2 + seq![';'];
    let q4 = q3 + ft;
    let q5 = q4 + seq!['L'];
    let q6 = q5 + dl;
    let q7 = q6 + seq![';'];
    let q8 = q7 + fl;
    let q9 = q8 + seq!['A'];
    let q10 = q9 + da;
    let q11 = q10 + seq![';'];
    assert(s == q11 + fa);
    lemma_assoc(q10, seq![';'], fa);
    lemma_assoc(q9, da, r10);
    lemma_assoc(q8, seq!['A'], r9);
    lemma_assoc(q7, fl, r8);
    lemma_assoc(q6, seq![';'], r7);
    lemma_assoc(q5, dl, r6);
    lemma_assoc(q4, seq!['L'], r5);
    lemma_assoc(q3, ft, r4);
    lemma_assoc(q2, seq![';'], r3);
    lemma_assoc(q1, dt, r2);
    assert(s == r0);
    assert(s.subrange(0, s.len() as int) =~= s);

    let m1: int = 1;
    lemma_peel(s, 0, seq!['T'], r1);
    assert(s[0] == 'T') by {
        assert(s[0] == s.subrange(0, 1)[0]);
    }
    assert(sd_expect(s, 0, 'T') == Some(1int));

    // Statement count.
    let m2: int = m1 + dt.len();
    lemma_peel(s, m1, dt, r2);
    assert(s[m2] == ';') by {
        assert(s[m2] == s.subrange(m2, m2 + r2.len())[0]);
    }
    lemma_rt_num(s, m1, dv.theses.len());
    // Statements.
    let m3: int = m2 + 1;
    lemma_peel(s, m2, seq![';'], r3);
    assert(sd_expect(s, m2, ';') == Some(m3));
    let m4: int = m3 + ft.len();
    lemma_peel(s, m3, ft, r4);
    lemma_rt_theses(s, m3, dv.theses, 0);
    assert(dv.theses.subrange(0, dv.theses.len() as int) =~= dv.theses);

    // Respondent count.
    let m5: int = m4 + 1;
    lemma_peel(s, m4, seq!['L'], r5);
    assert(s[m4] == 'L') by {
        assert(s[m4] == s.subrange(m4, m4 + 1 + r5.len())[0]);
    }
    assert(sd_expect(s, m4, 'L') == Some(m5));
    let m6: int = m5 + dl.len();
    lemma_peel(s, m5, dl, r6);
    assert(s[m6] == ';') by {
        assert(s[m6] == s.subrange(m6, m6 + r6.len())[0]);
    }
    lemma_rt_num(s, m5, dv.lists.len());
    // Respondents.
    let m7: int = m6 + 1;
    lemma_peel(s, m6, seq![';'], r7);
    assert(sd_expect(s, m6, ';') == Some(m7));
    let m8: int = m7 + fl.len();
    lemma_peel(s, m7, fl, r8);
    lemma_rt_lists(s, m7, dv.lists, 0);
    assert(dv.lists.subrange(0, dv.lists.len() as int) =~= dv.lists);

    // Answer count.
    let m9: int = m8 + 1;
    lemma_peel(s, m8, seq!['A'], r9);
    assert(s[m8] == 'A') by {
        assert(s[m8] == s.subrange(m8, m8 + 1 + r9.len())[0]);
    }
    assert(sd_expect(s, m8, 'A') == Some(m9));
    let m10: int = m9 + da.len();
    lemma_peel(s, m9, da, r10);
    assert(s[m10] == ';') by {
        assert(s[m10] == s.subrange(m10, m10 + r10.len())[0]);
    }
    lemma_rt_num(s, m9, dv.answers.len());
    // Answers.
    let m11: int = m10 + 1;
    lemma_peel(s, m10, seq![';'], r11);
    assert(sd_expect(s, m10, ';') == Some(m11));
    lemma_rt_answers(s, m11, dv.answers, 0);
    assert(dv.answers.subrange(0, dv.answers.len() as int) =~= dv.answers);
    assert(m11 + fa.len() == s.len());
}

} // verus!
