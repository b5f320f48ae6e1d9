//! What translation decides on its own: the rolling conversation history,
//! the check of an aggregated reply, the placeholder for a chunk that could
//! not be translated, how chunk translations are joined, and how a line of
//! an event stream is read.
use vstd::prelude::*;

use crate::refusal::{is_refusal, opens_with_refusal};
use crate::retry::{after_failure, decide_after_failure, RetryDecision};
use crate::scout::TranslationError;
use crate::text::{append_str, chars_of, lower_of, owned, string_of, trim_chars, trimmed};

verus! {

/// Where a chapter and chunk stand, for progress display.
#[derive(Clone, Copy, Debug)]
pub struct ProgressInfo {
    /// Chapter number, from 1.
    pub chapter: u32,
    /// Chunk number, from 1.
    pub chunk: u32,
    /// Number of chunks in the chapter.
    pub total_chunks: u32,
}

/// One message of a conversation.
#[derive(Clone, Debug)]
pub struct Message {
    /// `system`, `user` or `assistant`.
    pub role: String,
    pub content: String,
}

/// A message as plain values: role, content.
pub type MessageView = (Seq<char>, Seq<char>);

impl View for Message {
    type V = MessageView;

    open spec fn view(&self) -> MessageView {
        (self.role@, self.content@)
    }
}

/// The views of messages.
pub open spec fn messages_view(ms: Seq<Message>) -> Seq<MessageView> {
    ms.map_values(|m: Message| m@)
}

/// The role of the instructions that open a conversation.
pub open spec fn system_role() -> Seq<char> {
    seq!['s', 'y', 's', 't', 'e', 'm']
}

/// The role of the text sent.
pub open spec fn user_role() -> Seq<char> {
    seq!['u', 's', 'e', 'r']
}

/// The role of the model's replies.
pub open spec fn assistant_role() -> Seq<char> {
    seq!['a', 's', 's', 'i', 's', 't', 'a', 'n', 't']
}

fn user_message(content: &str) -> (m: Message)
    ensures
        m@ == (user_role(), content@),
{
    let r: Vec<char> = vec!['u', 's', 'e', 'r'];
    assert(r@ =~= user_role());
    Message { role: string_of(&r), content: owned(content) }
}

fn assistant_message(content: &str) -> (m: Message)
    ensures
        m@ == (assistant_role(), content@),
{
    let r: Vec<char> = vec!['a', 's', 's', 'i', 's', 't', 'a', 'n', 't'];
    assert(r@ =~= assistant_role());
    Message { role: string_of(&r), content: owned(content) }
}

fn push_message(v: &mut Vec<Message>, m: Message)
    ensures
        messages_view(final(v)@) == messages_view(old(v)@).push(m@),
{
    v.push(m);
    assert(messages_view(v@) =~= messages_view(old(v)@).push(m@));
}

impl Message {
    /// A message with `role` and `content`.
    pub fn new(role: &str, content: &str) -> (r: Message)
        ensures
            r@ == (role@, content@),
    {
        Message { role: owned(role), content: owned(content) }
    }

    /// A copy of this message.
    pub fn copy(&self) -> (r: Message)
        ensures
            r@ == self@,
    {
        Message { role: self.role.clone(), content: self.content.clone() }
    }
}

/// A conversation that holds only the instructions `prompt`.
pub fn new_history(prompt: &str) -> (r: Vec<Message>)
    ensures
        messages_view(r@) == seq![(system_role(), prompt@)],
{
    let sr: Vec<char> = vec!['s', 'y', 's', 't', 'e', 'm'];
    assert(sr@ =~= system_role());
    let m = Message { role: string_of(&sr), content: owned(prompt) };
    let mut r: Vec<Message> = Vec::new();
    push_message(&mut r, m);
    assert(messages_view(r@) =~= seq![(system_role(), prompt@)]);
    r
}

/// The messages of one request: the history, then `chunk` as the user's.
pub fn request_messages(history: &Vec<Message>, chunk: &str) -> (r: Vec<Message>)
    ensures
        messages_view(r@) == messages_view(history@).push((user_role(), chunk@)),
{
    let mut r: Vec<Message> = Vec::new();
    let mut i: usize = 0;
    while i < history.len()
        invariant
            i <= history.len(),
            messages_view(r@) == messages_view(history@).take(i as int),
        decreases history.len() - i,
    {
        let m = history[i].copy();
        push_message(&mut r, m);
        assert(messages_view(history@).take(i + 1) =~= messages_view(history@).take(i as int).push(m@));
        i = i + 1;
    }
    assert(messages_view(history@).take(history@.len() as int) =~= messages_view(history@));
    push_message(&mut r, user_message(chunk));
    r
}

/// `h` cut to the instructions and the last `pairs` exchanges: when it is
/// longer than `1 + 2 * pairs`, the oldest messages after the first go.
pub open spec fn bounded_history(h: Seq<MessageView>, pairs: nat) -> Seq<MessageView> {
    if h.len() > 1 + 2 * pairs {
        seq![h[0]] + h.skip(h.len() - 2 * pairs)
    } else {
        h
    }
}

/// Adds one exchange (`chunk` sent, `reply` received) to the history, then
/// drops the oldest exchanges beyond the last `history_length`, keeping the
/// instructions first.
pub fn record_exchange(history: &mut Vec<Message>, chunk: &str, reply: &str, history_length: usize)
    requires
        old(history).len() >= 1,
    ensures
        messages_view(final(history)@) == bounded_history(
            messages_view(old(history)@).push((user_role(), chunk@)).push((assistant_role(), reply@)),
            history_length as nat,
        ),
        messages_view(final(history)@)[0] == messages_view(old(history)@)[0],
        final(history).len() <= 1 + 2 * history_length || final(history).len() == old(history).len() + 2,
{
    let ghost before = messages_view(history@);
    push_message(history, user_message(chunk));
    push_message(history, assistant_message(reply));
    let ghost full = messages_view(history@);
    assert(full[0] == before[0]);
    if history_length <= (usize::MAX - 1) / 2 && history.len() > 1 + 2 * history_length {
        let keep_from = history.len() - 2 * history_length;
        let mut kept: Vec<Message> = Vec::new();
        let first = history[0].copy();
        push_message(&mut kept, first);
        assert(seq![full[0]] + full.subrange(keep_from as int, keep_from as int) =~= seq![first@]);
        let mut i = keep_from;
        while i < history.len()
            invariant
                keep_from <= i <= history.len(),
                full == messages_view(history@),
                messages_view(kept@) == seq![full[0]] + full.subrange(keep_from as int, i as int),
                full[0] == messages_view(old(history)@)[0],
            decreases history.len() - i,
        {
            let m = history[i].copy();
            push_message(&mut kept, m);
            assert(m@ == full[i as int]);
            assert(messages_view(kept@) =~= seq![full[0]] + full.subrange(keep_from as int, i + 1));
            i = i + 1;
        }
        assert(full.subrange(keep_from as int, full.len() as int) =~= full.skip(keep_from as int));
        assert(messages_view(kept@).len() == 1 + 2 * history_length);
        *history = kept;
    }
}

/// The check of an aggregated reply: trimmed, it must not be empty and must
/// not open with a refusal phrase.
pub open spec fn reply_accepted(full: Seq<char>) -> bool {
    trimmed(full).len() > 0 && !opens_with_refusal(lower_of(trimmed(full)))
}

/// The trimmed reply when it passes the check, else a refusal error.
pub fn validate_reply(full: &str) -> (r: Result<String, TranslationError>)
    ensures
        r is Ok <==> reply_accepted(full@),
        r is Ok ==> r->Ok_0@ == trimmed(full@),
        r is Err ==> r->Err_0 is Refused,
{
    let tv = trim_chars(&chars_of(full));
    let t = string_of(&tv);
    if tv.len() == 0 {
        return Err(TranslationError::Refused(t));
    }
    if is_refusal(t.as_str()) {
        return Err(TranslationError::Refused(t));
    }
    Ok(t)
}

/// The marker that stands in for a chunk that could not be translated.
pub open spec fn failure_marker() -> Seq<char> {
    seq!['[', 'T', 'R', 'A', 'N', 'S', 'L', 'A', 'T', 'I', 'O', 'N', ' ', 'F', 'A', 'I', 'L', 'E', 'D', ']', '\n']
}

/// What stands for a chunk whose attempts all failed: the marker, then the
/// untranslated chunk.
pub fn failure_placeholder(chunk: &str) -> (r: String)
    ensures
        r@ == failure_marker() + chunk@,
{
    let mut v: Vec<char> = vec!['[', 'T', 'R', 'A', 'N', 'S', 'L', 'A', 'T', 'I', 'O', 'N', ' ', 'F', 'A', 'I', 'L', 'E', 'D', ']', '\n'];
    append_str(&mut v, chunk);
    assert(v@ =~= failure_marker() + chunk@);
    string_of(&v)
}

/// The parts with a blank line between neighbours.
pub open spec fn join_paragraphs(p: Seq<Seq<char>>) -> Seq<char>
    decreases p.len(),
{
    if p.len() == 0 {
        Seq::empty()
    } else if p.len() == 1 {
        p[0]
    } else {
        join_paragraphs(p.drop_last()) + seq!['\n', '\n'] + p.last()
    }
}

/// The translations of the chunks, in order, with a blank line between them.
pub fn join_translations(parts: &Vec<String>) -> (r: String)
    ensures
        r@ == join_paragraphs(crate::chunker::string_views(parts@)),
{
    let ghost ps = crate::chunker::string_views(parts@);
    let mut v: Vec<char> = Vec::new();
    let mut i: usize = 0;
    assert(ps.take(0) =~= Seq::<Seq<char>>::empty());
    while i < parts.len()
        invariant
            i <= parts.len(),
            ps == crate::chunker::string_views(parts@),
            v@ == join_paragraphs(ps.take(i as int)),
        decreases parts.len() - i,
    {
        assert(ps.take(i + 1).drop_last() =~= ps.take(i as int));
        if i > 0 {
            v.push('\n');
            v.push('\n');
        }
        append_str(&mut v, parts[i].as_str());
        assert(ps.take(i + 1).last() == ps[i as int]);
        if i == 0 {
            assert(v@ =~= ps.take(1)[0]);
        } else {
            assert(v@ =~= join_paragraphs(ps.take(i as int)) + seq!['\n', '\n'] + ps[i as int]);
        }
        i = i + 1;
    }
    assert(ps.take(ps.len() as int) =~= ps);
    string_of(&v)
}

/// A line of a server-sent event stream.
#[derive(Debug)]
pub enum StreamLine {
    /// A `data: ` line with its payload.
    Data(String),
    /// The `data: [DONE]` line that ends the stream.
    Done,
    /// Any other line.
    Other,
}

/// The prefix of a data line.
pub open spec fn data_prefix() -> Seq<char> {
    seq!['d', 'a', 't', 'a', ':', ' ']
}

/// The payload that ends a stream.
pub open spec fn done_payload() -> Seq<char> {
    seq!['[', 'D', 'O', 'N', 'E', ']']
}

/// How a stream line reads: a data line whose trimmed payload is `[DONE]`
/// ends the stream; another data line carries its payload.
pub fn read_stream_line(line: &str) -> (r: StreamLine)
    ensures
        !data_prefix().is_prefix_of(line@) <==> r is Other,
        r is Done <==> data_prefix().is_prefix_of(line@) && trimmed(line@.skip(6)) == done_payload(),
        r is Data ==> r->Data_0@ == line@.skip(6),
{
    let l = chars_of(line);
    let p: Vec<char> = vec!['d', 'a', 't', 'a', ':', ' '];
    assert(p@ =~= data_prefix());
    if !crate::text::starts_with_exec(&l, &p) {
        return StreamLine::Other;
    }
    let rest = crate::text::copy_range(&l, 6, l.len());
    assert(rest@ =~= line@.skip(6));
    let t = trim_chars(&rest);
    let d: Vec<char> = vec!['[', 'D', 'O', 'N', 'E', ']'];
    assert(d@ =~= done_payload());
    if t.len() == d.len() && crate::text::starts_with_exec(&t, &d) {
        assert(t@ =~= d@);
        StreamLine::Done
    } else {
        proof {
            if t@ == d@ {
                assert(t@.take(6) =~= t@);
            }
        }
        StreamLine::Data(string_of(&rest))
    }
}

/// What the translation of one chunk does after an attempt.
#[derive(Debug)]
pub enum ChunkStep {
    /// The chunk is translated.
    Translated(String),
    /// Wait `wait_secs` seconds, then make attempt number `attempt + 1`.
    Retry { attempt: u32, wait_secs: u64 },
    /// Every attempt failed: this placeholder stands for the chunk.
    GaveUp(String),
}

/// The next step of translating `chunk`, from the attempt just made (number
/// `attempt + 1` of at most `max_attempts`) and its checked reply or failure.
pub fn translation_step(
    chunk: &str,
    attempt: u32,
    max_attempts: u32,
    outcome: Result<String, TranslationError>,
) -> (r: ChunkStep)
    requires
        attempt < max_attempts,
    ensures
        match outcome {
            Ok(t) => r is Translated && r->Translated_0@ == t@,
            Err(_) => match decide_after_failure(attempt, max_attempts) {
                RetryDecision::Retry { attempt: a, wait_secs: w } => r is Retry && r->attempt == a
                    && r->wait_secs == w,
                RetryDecision::GiveUp => r is GaveUp && r->GaveUp_0@ == failure_marker() + chunk@,
            },
        },
{
    match outcome {
        Ok(t) => ChunkStep::Translated(t),
        Err(_) => match after_failure(attempt, max_attempts) {
            RetryDecision::Retry { attempt, wait_secs } => ChunkStep::Retry { attempt, wait_secs },
            RetryDecision::GiveUp => ChunkStep::GaveUp(failure_placeholder(chunk)),
        },
    }
}

/// Splits received stream text into its complete lines and the unfinished
/// rest: the pieces between newlines, all but the last, are the lines.
pub fn split_stream_buffer(buffer: &str) -> (r: (Vec<String>, String))
    ensures
        crate::chunker::string_views(r.0@) == crate::chunker::split_on(buffer@, '\n').drop_last(),
        r.1@ == crate::chunker::split_on(buffer@, '\n').last(),
{
    let cs = chars_of(buffer);
    let pieces = crate::chunker::split_on_exec(&cs, '\n');
    let ghost p = crate::chunker::views(pieces@);
    proof {
        crate::chunker::lemma_split_on_nonempty(cs@, '\n');
    }
    let mut lines: Vec<String> = Vec::new();
    let mut i: usize = 0;
    while i + 1 < pieces.len()
        invariant
            i < pieces.len(),
            p == crate::chunker::views(pieces@),
            crate::chunker::string_views(lines@) == p.take(i as int),
        decreases pieces.len() - i,
    {
        let ghost before = crate::chunker::string_views(lines@);
        let l = string_of(&pieces[i]);
        lines.push(l);
        assert(crate::chunker::string_views(lines@) =~= before.push(l@));
        assert(p.take(i + 1) =~= p.take(i as int).push(l@));
        i = i + 1;
    }
    assert(p.take(i as int) =~= p.drop_last());
    let rest = string_of(&pieces[i]);
    (lines, rest)
}

/// Whether `text` has nothing to translate: it is empty or only whitespace.
pub fn is_blank(text: &str) -> (r: bool)
    ensures
        r == (trimmed(text@).len() == 0),
{
    trim_chars(&chars_of(text)).len() == 0
}

/// What stands for `chunk` before its first attempt: when no attempt is
/// allowed, the failure placeholder at once; otherwise nothing yet.
pub fn without_attempts(chunk: &str, max_attempts: u32) -> (r: Option<String>)
    ensures
        r is Some <==> max_attempts == 0,
        r is Some ==> r->Some_0@ == failure_marker() + chunk@,
{
    if max_attempts == 0 {
        Some(failure_placeholder(chunk))
    } else {
        None
    }
}

/// The mark put after a chapter title whose translation failed.
pub open spec fn failed_title_mark() -> Seq<char> {
    seq![' ', '[', 'T', 'R', 'A', 'N', 'S', 'L', 'A', 'T', 'I', 'O', 'N', '_', 'F', 'A', 'I', 'L', 'E', 'D', ']']
}

/// What stands for a chapter title that could not be translated: the
/// original title, then the mark.
pub fn failed_title(title: &str) -> (r: String)
    ensures
        r@ == title@ + failed_title_mark(),
{
    let mut v = chars_of(title);
    let mark: Vec<char> = vec![' ', '[', 'T', 'R', 'A', 'N', 'S', 'L', 'A', 'T', 'I', 'O', 'N', '_', 'F', 'A', 'I', 'L', 'E', 'D', ']'];
    crate::text::append_chars(&mut v, &mark);
    assert(v@ =~= title@ + failed_title_mark());
    string_of(&v)
}

} // verus!
