//! What the site adapters hand over: a work, its chapters, and the checks
//! on the chapter range and folder names that the pipeline derives from them.
use vstd::prelude::*;

use crate::text::{chars_of, copy_range, string_of};

verus! {

/// A work as its site describes it.
#[derive(Clone, Debug)]
pub struct NovelInfo {
    /// The title, in the original language.
    pub title: String,
    /// The address from which the chapter list is read.
    pub base_url: String,
    /// The identifier of the work on its site.
    pub novel_id: String,
}

/// One chapter of a work.
#[derive(Clone, Debug)]
pub struct ChapterInfo {
    pub title: String,
    /// The address of its text.
    pub url: String,
    /// Its number, from 1.
    pub number: u32,
}

/// The chapters of a work: a list, or a single text without chapters.
#[derive(Clone, Debug)]
pub enum ChapterList {
    Chapters(Vec<ChapterInfo>),
    OneShot,
}

impl ChapterList {
    /// The number of chapters: one for a single text.
    pub open spec fn count(&self) -> nat {
        match self {
            ChapterList::Chapters(c) => c.len() as nat,
            ChapterList::OneShot => 1,
        }
    }

    /// Whether the work is a single text.
    pub fn is_oneshot(&self) -> (r: bool)
        ensures
            r == (*self is OneShot),
    {
        match self {
            ChapterList::OneShot => true,
            ChapterList::Chapters(_) => false,
        }
    }

    /// The number of chapters: one for a single text.
    pub fn len(&self) -> (r: usize)
        ensures
            r == self.count(),
    {
        match self {
            ChapterList::Chapters(c) => c.len(),
            ChapterList::OneShot => 1,
        }
    }

    /// Whether there is no chapter at all.
    pub fn is_empty(&self) -> (r: bool)
        ensures
            r == (self.count() == 0),
    {
        match self {
            ChapterList::Chapters(c) => c.len() == 0,
            ChapterList::OneShot => false,
        }
    }
}

/// Why a requested chapter range is refused.
#[derive(Clone, Copy, Debug, PartialEq, Eq, Structural)]
pub enum RangeError {
    /// A single text has no range to choose.
    RangeOnOneShot,
    /// The first chapter comes after the last.
    StartAfterEnd { start: u32, end: u32 },
    /// The last chapter is beyond the work.
    EndBeyondTotal { end: u32, total: u32 },
}

/// The number of chapters as a `u32`, capped at its largest value.
pub open spec fn total_u32(n: nat) -> u32 {
    if n > u32::MAX {
        u32::MAX
    } else {
        n as u32
    }
}

/// The chapter range to process: for a single text `(1, 1)`, and no bound
/// may be given; else from `start` (default 1) to `end` (default the last),
/// with `start <= end <= total`.
pub open spec fn chapter_range(start: Option<u32>, end: Option<u32>, list: ChapterList) -> Result<
    (u32, u32),
    RangeError,
> {
    if list is OneShot {
        if start is Some || end is Some {
            Err(RangeError::RangeOnOneShot)
        } else {
            Ok((1u32, 1u32))
        }
    } else {
        let total = total_u32(list.count());
        let s = match start {
            Some(x) => x,
            None => 1u32,
        };
        let e = match end {
            Some(x) => x,
            None => total,
        };
        if s > e {
            Err(RangeError::StartAfterEnd { start: s, end: e })
        } else if e > total {
            Err(RangeError::EndBeyondTotal { end: e, total })
        } else {
            Ok((s, e))
        }
    }
}

/// Checks the requested chapter range against the work.
pub fn validate_chapter_range(start: Option<u32>, end: Option<u32>, chapter_list: &ChapterList) -> (r:
    Result<(u32, u32), RangeError>)
    ensures
        r == chapter_range(start, end, *chapter_list),
{
    if chapter_list.is_oneshot() {
        if start.is_some() || end.is_some() {
            return Err(RangeError::RangeOnOneShot);
        }
        return Ok((1, 1));
    }
    let n = chapter_list.len();
    let total: u32 = if n > u32::MAX as usize {
        u32::MAX
    } else {
        n as u32
    };
    let s = match start {
        Some(x) => x,
        None => 1,
    };
    let e = match end {
        Some(x) => x,
        None => total,
    };
    if s > e {
        return Err(RangeError::StartAfterEnd { start: s, end: e });
    }
    if e > total {
        return Err(RangeError::EndBeyondTotal { end: e, total });
    }
    Ok((s, e))
}

/// A character that file names may not hold.
pub open spec fn is_unsafe_in_file_name(c: char) -> bool {
    c == '\\' || c == '/' || c == '*' || c == '?' || c == '"' || c == '<' || c == '>' || c == '|'
}

/// `c`, or `_` when file names may not hold it.
pub open spec fn file_name_char(c: char) -> char {
    if is_unsafe_in_file_name(c) {
        '_'
    } else {
        c
    }
}

/// `s` without its trailing dots and spaces.
pub open spec fn trim_dots_spaces(s: Seq<char>) -> Seq<char>
    decreases s.len(),
{
    if s.len() > 0 && (s.last() == '.' || s.last() == ' ') {
        trim_dots_spaces(s.drop_last())
    } else {
        s
    }
}

/// `name` made safe as a file name: each unsafe character becomes `_`, then
/// trailing dots and spaces go.
pub open spec fn sanitized(name: Seq<char>) -> Seq<char> {
    trim_dots_spaces(name.map_values(|c: char| file_name_char(c)))
}

/// `name` made safe as a file name.
pub fn sanitize_filename(name: &str) -> (r: String)
    ensures
        r@ == sanitized(name@),
{
    let cs = chars_of(name);
    let mut v: Vec<char> = Vec::new();
    let mut i: usize = 0;
    while i < cs.len()
        invariant
            i <= cs.len(),
            v@ == cs@.take(i as int).map_values(|c: char| file_name_char(c)),
        decreases cs.len() - i,
    {
        let c = cs[i];
        let d = if c == '\\' || c == '/' || c == '*' || c == '?' || c == '"' || c == '<' || c == '>' || c
            == '|' {
            '_'
        } else {
            c
        };
        v.push(d);
        assert(v@ =~= cs@.take(i + 1).map_values(|c: char| file_name_char(c)));
        i = i + 1;
    }
    assert(cs@.take(cs@.len() as int) =~= cs@);
    let ghost m = v@;
    let mut j: usize = v.len();
    assert(m.take(j as int) =~= m);
    while j > 0 && (v[j - 1] == '.' || v[j - 1] == ' ')
        invariant
            j <= v.len(),
            v@ == m,
            trim_dots_spaces(m) == trim_dots_spaces(m.take(j as int)),
        decreases j,
    {
        assert(m.take(j as int).drop_last() =~= m.take(j - 1));
        j = j - 1;
    }
    let out = copy_range(&v, 0, j);
    assert(out@ =~= m.take(j as int));
    string_of(&out)
}

} // verus!
