//! What name scouting decides on its own: the text sent for a chapter, the
//! JSON object cut out of a model's reply, and the candidates kept from the
//! decoded `names` list.
use vstd::prelude::*;

use crate::name_mapping::{part_of_lowered, NameEntry, NamePart};
use crate::refusal::{is_refusal, opens_with_refusal};
use crate::retry::{after_failure, decide_after_failure, RetryDecision};
use crate::text::{
    append_str, chars_of, copy_range, decimal, decimal_chars, is_whitespace, is_ws, lower_of,
    string_of, trim_chars, trim_end, trimmed,
};

verus! {

/// Failures of a call to the model.
#[derive(Debug)]
pub enum TranslationError {
    /// The request could not be made or its body not read.
    HttpError(String),
    /// The service answered with an error status.
    ApiError(String),
    /// The reply is not of the expected shape.
    ParseError(String),
    /// The model declined, or answered with nothing.
    Refused(String),
    /// Every attempt failed.
    RetriesExhausted { attempts: u32 },
    /// The service settings are unusable.
    InvalidConfig(String),
}

/// The text sent to the scout for one chapter:
/// `### Chapter <n> - <title>` on a line, then the content.
pub open spec fn chapter_payload(n: nat, title: Seq<char>, content: Seq<char>) -> Seq<char> {
    seq!['#', '#', '#', ' ', 'C', 'h', 'a', 'p', 't', 'e', 'r', ' '] + decimal(n) + seq![' ', '-', ' ']
        + title + seq!['\n'] + content
}

/// The text sent to the scout for chapter `chapter_number`.
pub fn build_chapter_payload(chapter_number: u32, title: &str, content: &str) -> (r: String)
    ensures
        r@ == chapter_payload(chapter_number as nat, title@, content@),
{
    let mut v: Vec<char> = vec!['#', '#', '#', ' ', 'C', 'h', 'a', 'p', 't', 'e', 'r', ' '];
    let d = decimal_chars(chapter_number as u64);
    crate::text::append_chars(&mut v, &d);
    v.push(' ');
    v.push('-');
    v.push(' ');
    append_str(&mut v, title);
    v.push('\n');
    append_str(&mut v, content);
    assert(v@ =~= chapter_payload(chapter_number as nat, title@, content@));
    string_of(&v)
}

/// Three backquotes, which open and close a code fence.
pub open spec fn fence() -> Seq<char> {
    seq!['`', '`', '`']
}

/// An ASCII letter, as may name the language of a code fence.
pub open spec fn is_ascii_letter(c: char) -> bool {
    ('a' <= c && c <= 'z') || ('A' <= c && c <= 'Z')
}

/// How many characters from `i` on satisfy `p` without a break.
pub open spec fn run_from(s: Seq<char>, i: int, letters: bool) -> int
    decreases s.len() - i,
{
    if i < 0 || i >= s.len() {
        0
    } else if (letters && is_ascii_letter(s[i])) || (!letters && is_ws(s[i])) {
        1 + run_from(s, i + 1, letters)
    } else {
        0
    }
}

/// Whether `t` is a whole code fence: at least six characters, opening and
/// closing with three backquotes.
pub open spec fn is_fenced(t: Seq<char>) -> bool {
    t.len() >= 6 && fence().is_prefix_of(t) && t.subrange(t.len() - 3, t.len() as int) == fence()
}

/// The body of the code fence `t`: after the opening backquotes, the
/// language letters and whitespace; before the trailing whitespace and the
/// closing backquotes.
pub open spec fn fence_body(t: Seq<char>) -> Seq<char> {
    let inner = t.subrange(3, t.len() - 3);
    let a = run_from(inner, 0, true);
    let b = run_from(inner, a, false);
    trim_end(inner.skip(a + b))
}

/// `s` without any number of leading copies of `p`.
pub open spec fn strip_leading(s: Seq<char>, p: Seq<char>) -> Seq<char>
    decreases s.len(),
{
    if p.len() > 0 && p.is_prefix_of(s) {
        strip_leading(s.skip(p.len() as int), p)
    } else {
        s
    }
}

/// `s` without any number of trailing copies of `p`.
pub open spec fn strip_trailing(s: Seq<char>, p: Seq<char>) -> Seq<char>
    decreases s.len(),
{
    if p.len() > 0 && p.len() <= s.len() && s.subrange(s.len() - p.len(), s.len() as int) == p {
        strip_trailing(s.take(s.len() - p.len()), p)
    } else {
        s
    }
}

/// The opening of a fence that names JSON.
pub open spec fn json_fence() -> Seq<char> {
    seq!['`', '`', '`', 'j', 's', 'o', 'n']
}

/// Where the JSON of a reply is looked for: the reply trimmed; inside a code
/// fence, its body; after an opening fence that is not closed, the text
/// without the backquotes.
pub open spec fn json_region(raw: Seq<char>) -> Seq<char> {
    let t = trimmed(raw);
    if fence().is_prefix_of(t) {
        if is_fenced(t) {
            fence_body(t)
        } else {
            trimmed(strip_trailing(strip_leading(strip_leading(t, json_fence()), fence()), fence()))
        }
    } else {
        t
    }
}

/// The first index at or after `i` holding `c`, or `s.len()`.
pub open spec fn first_index_from(s: Seq<char>, c: char, i: int) -> int
    decreases s.len() - i,
{
    if i < 0 || i >= s.len() {
        s.len() as int
    } else if s[i] == c {
        i
    } else {
        first_index_from(s, c, i + 1)
    }
}

/// The last index below `j` holding `c`, or -1.
pub open spec fn last_index_below(s: Seq<char>, c: char, j: int) -> int
    decreases j,
{
    if j <= 0 || j > s.len() {
        -1
    } else if s[j - 1] == c {
        j - 1
    } else {
        last_index_below(s, c, j - 1)
    }
}

/// The JSON object of a reply: from the first `{` to the last `}` of its
/// region, when the first comes before the last.
pub open spec fn json_object_of(raw: Seq<char>) -> Option<Seq<char>> {
    let s = json_region(raw);
    let a = first_index_from(s, '{', 0);
    let b = last_index_below(s, '}', s.len() as int);
    if a < s.len() && 0 <= b && a < b {
        Some(s.subrange(a, b + 1))
    } else {
        None
    }
}

proof fn lemma_run_end(s: Seq<char>, i: int, letters: bool)
    requires
        0 <= i <= s.len(),
    ensures
        i + run_from(s, i, letters) <= s.len(),
        i + run_from(s, i, letters) < s.len() ==> !((letters && is_ascii_letter(s[i + run_from(s, i, letters)])) || (!letters && is_ws(s[i + run_from(s, i, letters)]))),
    decreases s.len() - i,
{
    if i < s.len() && ((letters && is_ascii_letter(s[i])) || (!letters && is_ws(s[i]))) {
        lemma_run_end(s, i + 1, letters);
    }
}

fn run_exec(s: &Vec<char>, i: usize, letters: bool) -> (r: usize)
    requires
        i <= s.len(),
    ensures
        r == run_from(s@, i as int, letters),
        i + r <= s.len(),
    decreases s.len() - i,
{
    if i >= s.len() {
        return 0;
    }
    let c = s[i];
    let hit = if letters {
        ('a' <= c && c <= 'z') || ('A' <= c && c <= 'Z')
    } else {
        is_whitespace(c)
    };
    if hit {
        1 + run_exec(s, i + 1, letters)
    } else {
        0
    }
}

fn strip_leading_exec(s: Vec<char>, p: &Vec<char>) -> (r: Vec<char>)
    ensures
        r@ == strip_leading(s@, p@),
    decreases s@.len(),
{
    if p.len() > 0 && crate::text::starts_with_exec(&s, p) {
        let rest = copy_range(&s, p.len(), s.len());
        assert(rest@ =~= s@.skip(p@.len() as int));
        strip_leading_exec(rest, p)
    } else {
        s
    }
}

fn strip_trailing_exec(s: Vec<char>, p: &Vec<char>) -> (r: Vec<char>)
    ensures
        r@ == strip_trailing(s@, p@),
    decreases s@.len(),
{
    if p.len() > 0 && crate::text::ends_with_exec(&s, p) {
        let rest = copy_range(&s, 0, s.len() - p.len());
        assert(rest@ =~= s@.take(s@.len() - p@.len()));
        strip_trailing_exec(rest, p)
    } else {
        s
    }
}

fn json_region_exec(raw: &str) -> (r: Vec<char>)
    ensures
        r@ == json_region(raw@),
{
    let t = trim_chars(&chars_of(raw));
    let f: Vec<char> = vec!['`', '`', '`'];
    assert(f@ =~= fence());
    if !crate::text::starts_with_exec(&t, &f) {
        return t;
    }
    if t.len() >= 6 && crate::text::ends_with_exec(&t, &f) {
        let inner = copy_range(&t, 3, t.len() - 3);
        let a = run_exec(&inner, 0, true);
        let b = run_exec(&inner, a, false);
        let rest = copy_range(&inner, a + b, inner.len());
        assert(rest@ =~= inner@.skip((a + b) as int));
        let body = trim_chars(&rest);
        proof {
            lemma_run_end(inner@, a as int, false);
            if rest@.len() > 0 {
                assert(rest@[0] == inner@[(a + b) as int]);
            }
            assert(crate::text::trim_start(rest@) == rest@);
        }
        return body;
    }
    let jf: Vec<char> = vec!['`', '`', '`', 'j', 's', 'o', 'n'];
    assert(jf@ =~= json_fence());
    let s1 = strip_leading_exec(t, &jf);
    let s2 = strip_leading_exec(s1, &f);
    let s3 = strip_trailing_exec(s2, &f);
    trim_chars(&s3)
}

/// The JSON object of a reply, or a parse error when it holds none.
pub fn extract_json_object(raw: &str) -> (r: Result<String, TranslationError>)
    ensures
        r is Ok <==> json_object_of(raw@) is Some,
        r is Ok ==> r->Ok_0@ == json_object_of(raw@)->Some_0,
        r is Err ==> r->Err_0 is ParseError,
{
    let s = json_region_exec(raw);
    let mut a: usize = 0;
    while a < s.len() && s[a] != '{'
        invariant
            a <= s.len(),
            first_index_from(s@, '{', 0) == first_index_from(s@, '{', a as int),
        decreases s.len() - a,
    {
        a = a + 1;
    }
    let mut b: usize = s.len();
    while b > 0 && s[b - 1] != '}'
        invariant
            b <= s.len(),
            last_index_below(s@, '}', s@.len() as int) == last_index_below(s@, '}', b as int),
        decreases b,
    {
        b = b - 1;
    }
    if a < s.len() && b > 0 && a < b - 1 {
        let obj = copy_range(&s, a, b);
        Ok(string_of(&obj))
    } else {
        Err(TranslationError::ParseError(string_of(&vec!['n', 'o', ' ', 'J', 'S', 'O', 'N', ' ', 'o', 'b', 'j', 'e', 'c', 't'])))
    }
}

/// One item of a decoded `names` list, each field as it came, if present.
#[derive(Clone, Debug)]
pub struct RawNameFields {
    pub original: Option<String>,
    pub english: Option<String>,
    pub part: Option<String>,
}

/// A candidate as plain values: original, English rendering, part.
pub type EntryView = (Seq<char>, Seq<char>, NamePart);

/// The view of a candidate.
pub open spec fn entry_view(e: NameEntry) -> EntryView {
    (e.original@, e.english@, e.part)
}

/// The candidate made of one decoded item: both names present and not
/// blank once trimmed; the part named case-insensitively, else unknown.
pub open spec fn entry_of_fields(f: RawNameFields) -> Option<EntryView> {
    match (f.original, f.english) {
        (Some(o), Some(e)) => {
            let to = trimmed(o@);
            let te = trimmed(e@);
            if to.len() == 0 || te.len() == 0 {
                None
            } else {
                Some(
                    (
                        to,
                        te,
                        match f.part {
                            Some(p) => part_of_lowered(lower_of(p@)),
                            None => NamePart::Unknown,
                        },
                    ),
                )
            }
        },
        _ => None,
    }
}

/// The candidates made of decoded items, in order, skipping unusable ones.
pub open spec fn entries_of_fields(fs: Seq<RawNameFields>) -> Seq<EntryView>
    decreases fs.len(),
{
    if fs.len() == 0 {
        Seq::empty()
    } else {
        let rest = entries_of_fields(fs.drop_last());
        match entry_of_fields(fs.last()) {
            Some(e) => rest.push(e),
            None => rest,
        }
    }
}

/// The views of candidates.
pub open spec fn entries_view(es: Seq<NameEntry>) -> Seq<EntryView> {
    es.map_values(|e: NameEntry| entry_view(e))
}

fn entry_from_fields(f: &RawNameFields) -> (r: Option<NameEntry>)
    ensures
        match r {
            Some(e) => entry_of_fields(*f) == Some(entry_view(e)),
            None => entry_of_fields(*f) is None,
        },
{
    match (&f.original, &f.english) {
        (Some(o), Some(e)) => {
            let to = trim_chars(&chars_of(o.as_str()));
            let te = trim_chars(&chars_of(e.as_str()));
            if to.len() == 0 || te.len() == 0 {
                return None;
            }
            let part = match &f.part {
                Some(p) => NamePart::from_name(p.as_str()),
                None => NamePart::Unknown,
            };
            Some(NameEntry { original: string_of(&to), english: string_of(&te), part })
        },
        _ => None,
    }
}

/// The candidates of a decoded `names` list.
pub fn entries_from_fields(fields: &Vec<RawNameFields>) -> (r: Vec<NameEntry>)
    ensures
        entries_view(r@) == entries_of_fields(fields@),
{
    let mut r: Vec<NameEntry> = Vec::new();
    let mut i: usize = 0;
    while i < fields.len()
        invariant
            i <= fields.len(),
            entries_view(r@) == entries_of_fields(fields@.take(i as int)),
        decreases fields.len() - i,
    {
        assert(fields@.take(i + 1).drop_last() =~= fields@.take(i as int));
        let ghost before = entries_view(r@);
        match entry_from_fields(&fields[i]) {
            Some(e) => {
                r.push(e);
                assert(entries_view(r@) =~= before.push(entry_view(r@.last())));
            },
            None => {},
        }
        i = i + 1;
    }
    assert(fields@.take(fields@.len() as int) =~= fields@);
    r
}

/// A scout reply checked before decoding: a reply that, trimmed, opens with
/// a refusal, or a reply without a JSON object, is an error; otherwise its
/// JSON object.
pub fn check_scout_reply(raw: &str) -> (r: Result<String, TranslationError>)
    ensures
        opens_with_refusal(lower_of(trimmed(raw@))) ==> r is Err && r->Err_0 is Refused,
        !opens_with_refusal(lower_of(trimmed(raw@))) ==> (r is Ok <==> json_object_of(raw@) is Some),
        r is Ok ==> r->Ok_0@ == json_object_of(raw@)->Some_0,
{
    let t = string_of(&trim_chars(&chars_of(raw)));
    if is_refusal(t.as_str()) {
        return Err(TranslationError::Refused(string_of(&vec!['r', 'e', 'f', 'u', 's', 'e', 'd'])));
    }
    extract_json_object(raw)
}

/// What the scouting of one chunk does after an attempt.
#[derive(Debug)]
pub enum ScoutStep {
    /// The chunk is done, with these candidates (perhaps none).
    Succeeded(Vec<NameEntry>),
    /// Wait `wait_secs` seconds, then make attempt number `attempt + 1`.
    Retry { attempt: u32, wait_secs: u64 },
    /// Every attempt failed; the chunk contributes nothing.
    Exhausted,
}

/// The next step of scouting one chunk, from the attempt just made (number
/// `attempt + 1` of at most `max_attempts`) and its outcome: the decoded
/// `names` items, or the failure of the request, of the reply check or of
/// the decoding.
pub fn scout_step(attempt: u32, max_attempts: u32, outcome: Result<Vec<RawNameFields>, TranslationError>) -> (r:
    ScoutStep)
    requires
        attempt < max_attempts,
    ensures
        match outcome {
            Ok(fields) => r is Succeeded && entries_view(r->Succeeded_0@) == entries_of_fields(fields@),
            Err(_) => match decide_after_failure(attempt, max_attempts) {
                RetryDecision::Retry { attempt: a, wait_secs: w } => r == (ScoutStep::Retry {
                    attempt: a,
                    wait_secs: w,
                }),
                RetryDecision::GiveUp => r is Exhausted,
            },
        },
{
    match outcome {
        Ok(fields) => ScoutStep::Succeeded(entries_from_fields(&fields)),
        Err(_) => match after_failure(attempt, max_attempts) {
            RetryDecision::Retry { attempt, wait_secs } => ScoutStep::Retry { attempt, wait_secs },
            RetryDecision::GiveUp => ScoutStep::Exhausted,
        },
    }
}

/// Adds the candidates of a chunk that succeeded to the results, one list
/// per chunk; a chunk with no candidates adds nothing.
pub fn keep_chunk_entries(results: &mut Vec<Vec<NameEntry>>, entries: Vec<NameEntry>)
    ensures
        entries.len() == 0 ==> final(results)@ == old(results)@,
        entries.len() > 0 ==> final(results)@ == old(results)@.push(entries),
{
    if entries.len() > 0 {
        results.push(entries);
    }
}

} // verus!
