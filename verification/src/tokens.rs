//! Capability tokens: the resolver that maps an opaque token to a respondent
//! id, and the batch generator that derives one token per respondent.
//!
//! Possession of a token is the sole access control for a respondent's form.
//! Tokens are a readable prefix — the first word of the respondent's short
//! name — followed by a fixed-length random alphanumeric suffix.  The suffix
//! space is what keeps links unguessable; collisions are not handled, they
//! are accepted as negligible.  Regenerating invalidates every link handed
//! out before.

use vstd::prelude::*;
use vstd::string::*;
use rand::distr::SampleString;
use crate::document::unique_keys;
use crate::error::DataError;
use crate::strutil::{first_word, first_word_of, str_eq};

verus! {

/// The characters the random token suffix draws from.
pub open spec fn is_token_char(c: char) -> bool {
    ('a' <= c && c <= 'z') || ('A' <= c && c <= 'Z') || ('0' <= c && c <= '9')
}

/// The respondent id the token map names for `token`: the first entry whose
/// key is the token, if any.
pub open spec fn lookup_token(tm: Seq<(Seq<char>, Seq<char>)>, token: Seq<char>) -> Option<
    Seq<char>,
>
    decreases tm.len(),
{
    if tm.len() == 0 {
        None
    } else if tm[0].0 == token {
        Some(tm[0].1)
    } else {
        lookup_token(tm.drop_first(), token)
    }
}

/// The view of a token map held as key/value pairs.
pub open spec fn token_map_view(s: Seq<(String, String)>) -> Seq<(Seq<char>, Seq<char>)> {
    s.map_values(|p: (String, String)| (p.0@, p.1@))
}

/// A token resolves exactly when some entry carries it.
pub proof fn lemma_lookup_token_domain(tm: Seq<(Seq<char>, Seq<char>)>, token: Seq<char>)
    ensures
        (lookup_token(tm, token) is Some) <==> exists|i: int|
            0 <= i < tm.len() && (#[trigger] tm[i]).0 == token,
    decreases tm.len(),
{
    if tm.len() > 0 {
        if tm[0].0 == token {
        } else {
            lemma_lookup_token_domain(tm.drop_first(), token);
            let t = tm.drop_first();
            if lookup_token(tm, token) is Some {
                let i = choose|i: int| 0 <= i < t.len() && (#[trigger] t[i]).0 == token;
                assert(tm[i + 1].0 == token);
            }
            if exists|i: int| 0 <= i < tm.len() && (#[trigger] tm[i]).0 == token {
                let i = choose|i: int| 0 <= i < tm.len() && (#[trigger] tm[i]).0 == token;
                assert(t[i - 1].0 == token);
            }
        }
    }
}

/// Under unique token keys, each entry's token resolves to that entry's
/// respondent id — two different tokens resolve to the same respondent only
/// where the map itself was provisioned so.
pub proof fn lemma_lookup_token_unique(tm: Seq<(Seq<char>, Seq<char>)>, i: int)
    requires
        unique_keys(tm),
        0 <= i < tm.len(),
    ensures
        lookup_token(tm, tm[i].0) == Some(tm[i].1),
    decreases tm.len(),
{
    if i > 0 {
        let t = tm.drop_first();
        assert(unique_keys(t)) by {
            assert forall|p: int, q: int|
                0 <= p < q < t.len() implies (#[trigger] t[p]).0 != (#[trigger] t[q]).0 by {
                assert(t[p] == tm[p + 1] && t[q] == tm[q + 1]);
            }
        }
        assert(t[i - 1] == tm[i]);
        lemma_lookup_token_unique(t, i - 1);
        assert(tm[0].0 != tm[i].0);
    }
}

proof fn lemma_lookup_token_skip(tm: Seq<(Seq<char>, Seq<char>)>, token: Seq<char>, i: int)
    requires
        0 <= i <= tm.len(),
        forall|j: int| 0 <= j < i ==> (#[trigger] tm[j]).0 != token,
    ensures
        lookup_token(tm, token) == lookup_token(tm.subrange(i, tm.len() as int), token),
    decreases i,
{
    if i > 0 {
        let t = tm.drop_first();
        assert(tm[0].0 != token);
        assert forall|j: int| 0 <= j < i - 1 implies (#[trigger] t[j]).0 != token by {
            assert(t[j] == tm[j + 1]);
        }
        lemma_lookup_token_skip(t, token, i - 1);
        assert(t.subrange(i - 1, t.len() as int) =~= tm.subrange(i, tm.len() as int));
        assert(lookup_token(tm, token) == lookup_token(t, token));
    } else {
        assert(tm.subrange(0, tm.len() as int) =~= tm);
    }
}

/// Resolves a capability token to its respondent id.  Fails with `NotFound`
/// for any string the map does not carry; nothing distinguishes an unknown
/// token from a malformed one.
pub fn resolve<'a>(tokens: &'a Vec<(String, String)>, token: &str) -> (r: Result<
    &'a String,
    DataError,
>)
    ensures
        match r {
            Ok(id) => lookup_token(token_map_view(tokens@), token@) == Some(id@),
            Err(e) => {
                &&& e == DataError::NotFound
                &&& lookup_token(token_map_view(tokens@), token@) is None
            },
        },
{
    let ghost tm = token_map_view(tokens@);
    let n: usize = tokens.len();
    let mut i: usize = 0;
    while i < n
        invariant
            i <= n,
            n == tokens@.len(),
            tm == token_map_view(tokens@),
            forall|j: int| 0 <= j < i ==> (#[trigger] tm[j]).0 != token@,
        decreases n - i,
    {
        if str_eq(tokens[i].0.as_str(), token) {
            proof {
                lemma_lookup_token_skip(tm, token@, i as int);
                assert(tm.subrange(i as int, tm.len() as int)[0] == tm[i as int]);
            }
            return Ok(&tokens[i].1);
        }
        proof {
            assert(tm[i as int].0 == tokens@[i as int].0@);
        }
        i = i + 1;
    }
    proof {
        lemma_lookup_token_skip(tm, token@, n as int);
        assert(tm.subrange(n as int, tm.len() as int) =~= Seq::<(Seq<char>, Seq<char>)>::empty());
    }
    Err(DataError::NotFound)
}

/// Relies on rand's `Alphanumeric` distribution: `sample_string` returns a
/// string of exactly `len` characters, each drawn from a-z, A-Z, 0-9.
/// Nothing more is assumed of which characters come out.
#[verifier::external_body]
fn random_alphanumeric(len: usize) -> (r: String)
    ensures
        r@.len() == len as nat,
        forall|i: int| 0 <= i < r@.len() ==> is_token_char(#[trigger] r@[i]),
{
    rand::distr::Alphanumeric.sample_string(&mut rand::rng(), len)
}

/// Derives one capability token per respondent: the first word of the short
/// name, then thirty random alphanumeric characters.  Pairs each token with
/// its respondent id, in the respondents' order.
pub fn gen_tokens(lists: &Vec<(String, crate::document::List)>) -> (r: Vec<(String, String)>)
    ensures
        r@.len() == lists@.len(),
        forall|i: int|
            0 <= i < r@.len() ==> {
                let t = (#[trigger] r@[i]).0@;
                let fw = first_word(lists@[i].1.name_x@);
                &&& r@[i].1@ == lists@[i].0@
                &&& t.len() == fw.len() + 30
                &&& t.subrange(0, fw.len() as int) == fw
                &&& forall|j: int| fw.len() <= j < t.len() ==> is_token_char(#[trigger] t[j])
            },
{
    let n: usize = lists.len();
    let mut r: Vec<(String, String)> = Vec::new();
    let mut i: usize = 0;
    while i < n
        invariant
            i <= n,
            n == lists@.len(),
            r@.len() == i,
            forall|k: int|
                0 <= k < i ==> {
                    let t = (#[trigger] r@[k]).0@;
                    let fw = first_word(lists@[k].1.name_x@);
                    &&& r@[k].1@ == lists@[k].0@
                    &&& t.len() == fw.len() + 30
                    &&& t.subrange(0, fw.len() as int) == fw
                    &&& forall|j: int| fw.len() <= j < t.len() ==> is_token_char(#[trigger] t[j])
                },
        decreases n - i,
    {
        let prefix: &str = first_word_of(lists[i].1.name_x.as_str());
        let suffix: String = random_alphanumeric(30);
        let token: String = String::from_str(prefix).concat(suffix.as_str());
        proof {
            let fw = first_word(lists@[i as int].1.name_x@);
            assert(token@.subrange(0, fw.len() as int) =~= fw);
        }
        r.push((token, lists[i].0.clone()));
        i = i + 1;
    }
    r
}

/// The capability link for each token: the base URL, a slash, the token, in
/// the token map's order.
pub fn token_urls(tokens: &Vec<(String, String)>, base: &str) -> (r: Vec<String>)
    ensures
        r@.len() == tokens@.len(),
        forall|i: int|
            0 <= i < r@.len() ==> (#[trigger] r@[i])@ == base@ + "/"@ + tokens@[i].0@,
{
    let n: usize = tokens.len();
    let mut r: Vec<String> = Vec::new();
    let mut i: usize = 0;
    while i < n
        invariant
            i <= n,
            n == tokens@.len(),
            r@.len() == i,
            forall|k: int| 0 <= k < i ==> (#[trigger] r@[k])@ == base@ + "/"@ + tokens@[k].0@,
        decreases n - i,
    {
        let url: String = String::from_str(base).concat("/").concat(tokens[i].0.as_str());
        r.push(url);
        i = i + 1;
    }
    r
}

} // verus!
