//! Vote-based consensus on the English rendering of each original name.
//!
//! Every accepted extraction of `(original, english)` is one vote. A record's
//! best rendering is the one with the most votes; a tie keeps the previous
//! best as long as its own count has not dropped, and otherwise goes to the
//! least rendering, in character order, among those with the most votes.
use vstd::prelude::*;

use crate::rules::{
    entry_accepted, english_is_valid, english_is_valid_lowered, english_rejected,
    has_english_honorific, original_is_valid, original_rejected,
};
use crate::text::has_ws;
use crate::text::{chars_of, lemma_seq_lt_order, lower_of, occurs_at, seq_lt, seq_lt_exec};

verus! {

/// Which part of a full name an original fragment is.
#[derive(Clone, Copy, Debug, PartialEq, Eq, Structural)]
pub enum NamePart {
    Family,
    Given,
    Unknown,
}

/// The part named by an already lower-cased word: `family`, `given`, else unknown.
pub open spec fn part_of_lowered(l: Seq<char>) -> NamePart {
    if l == seq!['f', 'a', 'm', 'i', 'l', 'y'] {
        NamePart::Family
    } else if l == seq!['g', 'i', 'v', 'e', 'n'] {
        NamePart::Given
    } else {
        NamePart::Unknown
    }
}

impl NamePart {
    /// The part named by an already lower-cased word.
    pub fn from_lowered(l: &str) -> (r: NamePart)
        ensures
            r == part_of_lowered(l@),
    {
        let v = chars_of(l);
        let family: Vec<char> = vec!['f', 'a', 'm', 'i', 'l', 'y'];
        let given: Vec<char> = vec!['g', 'i', 'v', 'e', 'n'];
        if crate::text::occurs_at_exec(&v, &family, 0) && v.len() == family.len() {
            assert(v@ =~= family@);
            NamePart::Family
        } else if crate::text::occurs_at_exec(&v, &given, 0) && v.len() == given.len() {
            assert(v@ =~= given@);
            NamePart::Given
        } else {
            proof {
                if v@ == family@ {
                    assert(v@.subrange(0, family@.len() as int) =~= family@);
                }
                if v@ == given@ {
                    assert(v@.subrange(0, given@.len() as int) =~= given@);
                }
            }
            NamePart::Unknown
        }
    }

    /// The part named by `s`, compared without regard to case.
    pub fn from_name(s: &str) -> (r: NamePart)
        ensures
            r == part_of_lowered(lower_of(s@)),
    {
        let l = crate::text::lowercase(s);
        NamePart::from_lowered(l.as_str())
    }
}

impl std::str::FromStr for NamePart {
    type Err = std::convert::Infallible;

    fn from_str(s: &str) -> Result<NamePart, std::convert::Infallible> {
        Ok(NamePart::from_name(s))
    }
}

/// One candidate name as an extraction pass reports it.
#[derive(Clone, Debug)]
pub struct NameEntry {
    pub original: String,
    pub english: String,
    pub part: NamePart,
}

/// A list of votes: each rendering with its count.
pub type VoteSeq = Seq<(Seq<char>, u32)>;

/// The votes of `v` as plain sequences.
pub open spec fn votes_view(v: Seq<(String, u32)>) -> VoteSeq {
    v.map_values(|p: (String, u32)| (p.0@, p.1))
}

/// The largest count among the first `n` votes (0 when there are none).
pub open spec fn max_count_prefix(v: VoteSeq, n: int) -> u32
    decreases n,
{
    if n <= 0 {
        0
    } else {
        let m = max_count_prefix(v, n - 1);
        if v[n - 1].1 > m {
            v[n - 1].1
        } else {
            m
        }
    }
}

/// The largest count in `v`.
pub open spec fn max_count(v: VoteSeq) -> u32 {
    max_count_prefix(v, v.len() as int)
}

/// Among the first `n` votes, the index of the least rendering (in
/// character order) whose count is `m`, or -1 when none has that count.
pub open spec fn least_with_count(v: VoteSeq, m: u32, n: int) -> int
    decreases n,
{
    if n <= 0 {
        -1
    } else {
        let c = least_with_count(v, m, n - 1);
        if v[n - 1].1 == m && (c < 0 || seq_lt(v[n - 1].0, v[c].0)) {
            n - 1
        } else {
            c
        }
    }
}

/// The first index at or after `i` whose rendering is `k`, or `v.len()`.
pub open spec fn key_index_from(v: VoteSeq, k: Seq<char>, i: int) -> int
    decreases v.len() - i,
{
    if i >= v.len() || i < 0 {
        v.len() as int
    } else if v[i].0 == k {
        i
    } else {
        key_index_from(v, k, i + 1)
    }
}

/// The index of rendering `k` in `v`, or `v.len()` when it has no vote.
pub open spec fn key_index(v: VoteSeq, k: Seq<char>) -> int {
    key_index_from(v, k, 0)
}

/// The best rendering and its count, from the previous best, its previous
/// count and the current votes. No votes: none. The previous best stays when
/// it still has the most votes and its count has not dropped. Otherwise the
/// least rendering (in character order) with the most votes wins, so the
/// result depends on the votes alone, not on the order they are kept in.
pub open spec fn best_rule(prev: Option<Seq<char>>, prev_count: Option<u32>, v: VoteSeq) -> (
    Option<Seq<char>>,
    Option<u32>,
) {
    if v.len() == 0 {
        (None, None)
    } else {
        let m = max_count(v);
        let keep = match prev {
            Some(p) => {
                let i = key_index(v, p);
                i < v.len() && v[i].1 == m && match prev_count {
                    Some(c) => v[i].1 >= c,
                    None => true,
                }
            },
            None => false,
        };
        if keep {
            (prev, Some(m))
        } else {
            let k = least_with_count(v, m, v.len() as int);
            (Some(v[k].0), Some(v[k].1))
        }
    }
}

/// What one original name has collected.
#[derive(Clone, Debug)]
pub struct NameInfo {
    pub part: NamePart,
    /// Each rendering with its vote count; the order carries no meaning.
    pub votes: Vec<(String, u32)>,
    /// The best rendering.
    pub english: Option<String>,
    /// The vote count of the best rendering.
    pub count: Option<u32>,
}

/// A `NameInfo` as plain values.
pub struct InfoView {
    pub part: NamePart,
    pub votes: VoteSeq,
    pub best: Option<Seq<char>>,
    pub count: Option<u32>,
}

/// The view of an optional string.
pub open spec fn opt_view(s: Option<String>) -> Option<Seq<char>> {
    match s {
        Some(x) => Some(x@),
        None => None,
    }
}

impl View for NameInfo {
    type V = InfoView;

    open spec fn view(&self) -> InfoView {
        InfoView {
            part: self.part,
            votes: votes_view(self.votes@),
            best: opt_view(self.english),
            count: self.count,
        }
    }
}

proof fn lemma_max_count_prefix(v: VoteSeq, n: int)
    requires
        0 <= n <= v.len(),
    ensures
        forall|j: int| 0 <= j < n ==> v[j].1 <= max_count_prefix(v, n),
        n > 0 ==> exists|j: int| 0 <= j < n && v[j].1 == max_count_prefix(v, n),
    decreases n,
{
    if n > 0 {
        lemma_max_count_prefix(v, n - 1);
        if v[n - 1].1 > max_count_prefix(v, n - 1) || n == 1 {
            assert(v[n - 1].1 == max_count_prefix(v, n));
        } else {
            let j = choose|j: int| 0 <= j < n - 1 && v[j].1 == max_count_prefix(v, n - 1);
            assert(v[j].1 == max_count_prefix(v, n));
        }
    }
}

proof fn lemma_least_with_count(v: VoteSeq, m: u32, n: int)
    requires
        0 <= n <= v.len(),
    ensures
        -1 <= least_with_count(v, m, n) < n,
        least_with_count(v, m, n) >= 0 ==> v[least_with_count(v, m, n)].1 == m,
        least_with_count(v, m, n) >= 0 ==> forall|j: int|
            0 <= j < n && v[j].1 == m ==> !seq_lt(v[j].0, #[trigger] v[least_with_count(v, m, n)].0),
        (exists|j: int| 0 <= j < n && v[j].1 == m) ==> least_with_count(v, m, n) >= 0,
    decreases n,
{
    if n > 0 {
        lemma_least_with_count(v, m, n - 1);
        let c = least_with_count(v, m, n - 1);
        let r = least_with_count(v, m, n);
        if r >= 0 {
            assert forall|j: int| 0 <= j < n && v[j].1 == m implies !seq_lt(v[j].0, #[trigger] v[r].0) by {
                lemma_seq_lt_order(v[j].0, v[r].0, v[c].0);
                lemma_seq_lt_order(v[j].0, v[j].0, v[j].0);
            }
        }
        if exists|j: int| 0 <= j < n && v[j].1 == m {
            let j = choose|j: int| 0 <= j < n && v[j].1 == m;
            if j < n - 1 {
                assert(c >= 0);
            }
        }
    }
}

/// The winning index is always a valid one.
proof fn lemma_best_rule_index(v: VoteSeq)
    requires
        v.len() > 0,
    ensures
        0 <= least_with_count(v, max_count(v), v.len() as int) < v.len(),
        v[least_with_count(v, max_count(v), v.len() as int)].1 == max_count(v),
        forall|j: int|
            0 <= j < v.len() && v[j].1 == max_count(v) ==> !seq_lt(
                v[j].0,
                #[trigger] v[least_with_count(v, max_count(v), v.len() as int)].0,
            ),
{
    lemma_max_count_prefix(v, v.len() as int);
    lemma_least_with_count(v, max_count(v), v.len() as int);
}

proof fn lemma_key_index_from(v: VoteSeq, k: Seq<char>, i: int)
    requires
        0 <= i <= v.len(),
    ensures
        i <= key_index_from(v, k, i) <= v.len(),
        key_index_from(v, k, i) < v.len() ==> v[key_index_from(v, k, i)].0 == k,
        forall|j: int| i <= j < key_index_from(v, k, i) ==> v[j].0 != k,
    decreases v.len() - i,
{
    if i < v.len() && v[i].0 != k {
        lemma_key_index_from(v, k, i + 1);
    }
}

/// Applying the best rule a second time changes nothing.
pub proof fn lemma_best_rule_stable(prev: Option<Seq<char>>, prev_count: Option<u32>, v: VoteSeq)
    ensures
        best_rule(best_rule(prev, prev_count, v).0, best_rule(prev, prev_count, v).1, v)
            == best_rule(prev, prev_count, v),
{
    if v.len() > 0 {
        lemma_best_rule_index(v);
        let r = best_rule(prev, prev_count, v);
        lemma_key_index_from(v, r.0.unwrap(), 0);
    }
}

/// The best rule depends on the votes, not on the order they are kept in:
/// two vote lists without a repeated rendering that hold the same votes give
/// the same best rendering and count.
pub proof fn lemma_best_rule_order_free(
    prev: Option<Seq<char>>,
    prev_count: Option<u32>,
    v1: VoteSeq,
    v2: VoteSeq,
)
    requires
        votes_unique(v1),
        votes_unique(v2),
        forall|x: (Seq<char>, u32)| v1.contains(x) <==> v2.contains(x),
    ensures
        best_rule(prev, prev_count, v1) == best_rule(prev, prev_count, v2),
{
    if v1.len() > 0 {
        assert(v2.contains(v1[0]));
    }
    if v2.len() > 0 {
        assert(v1.contains(v2[0]));
    }
    if v1.len() > 0 && v2.len() > 0 {
        lemma_best_rule_index(v1);
        lemma_best_rule_index(v2);
        lemma_max_count_prefix(v1, v1.len() as int);
        lemma_max_count_prefix(v2, v2.len() as int);
        let m1 = max_count(v1);
        let m2 = max_count(v2);
        let j1 = choose|j: int| 0 <= j < v1.len() && v1[j].1 == m1;
        let j2 = choose|j: int| 0 <= j < v2.len() && v2[j].1 == m2;
        assert(v2.contains(v1[j1]));
        assert(v1.contains(v2[j2]));
        assert(m1 == m2);
        let m = m1;
        // the same least rendering wins the fallback
        let k1 = least_with_count(v1, m, v1.len() as int);
        let k2 = least_with_count(v2, m, v2.len() as int);
        assert(v2.contains(v1[k1]));
        assert(v1.contains(v2[k2]));
        let a = choose|a: int| 0 <= a < v2.len() && v2[a] == v1[k1];
        let b = choose|b: int| 0 <= b < v1.len() && v1[b] == v2[k2];
        assert(!seq_lt(v2[a].0, v2[k2].0));
        assert(!seq_lt(v1[b].0, v1[k1].0));
        lemma_seq_lt_order(v1[k1].0, v2[k2].0, v2[k2].0);
        assert(v1[k1] == v2[k2]);
        // the previous best is found with the same count, or in neither
        match prev {
            Some(p) => {
                lemma_key_index_from(v1, p, 0);
                lemma_key_index_from(v2, p, 0);
                let i1 = key_index(v1, p);
                let i2 = key_index(v2, p);
                if i1 < v1.len() {
                    assert(v2.contains(v1[i1]));
                    let c = choose|c: int| 0 <= c < v2.len() && v2[c] == v1[i1];
                    assert(i2 <= c);
                    assert(v2[i2].0 == v2[c].0);
                    assert(i2 == c);
                }
                if i2 < v2.len() {
                    assert(v1.contains(v2[i2]));
                    let c = choose|c: int| 0 <= c < v1.len() && v1[c] == v2[i2];
                    assert(i1 <= c);
                    assert(i1 == c);
                }
            },
            None => {},
        }
    }
}

impl NameInfo {
    /// A record with no votes yet.
    pub fn new(part: NamePart) -> (r: NameInfo)
        ensures
            r@.part == part,
            r@.votes.len() == 0,
            r@.best is None,
            r@.count is None,
    {
        let r = NameInfo { part, votes: Vec::new(), english: None, count: None };
        assert(r@.votes =~= Seq::<(Seq<char>, u32)>::empty());
        r
    }

    /// The largest vote count, and the index of the least rendering that has it.
    fn max_and_least(&self) -> (r: (u32, usize))
        requires
            self.votes.len() > 0,
        ensures
            r.0 == max_count(self@.votes),
            r.1 == least_with_count(self@.votes, r.0, self@.votes.len() as int),
            r.1 < self.votes.len(),
    {
        let ghost v = self@.votes;
        let mut m: u32 = 0;
        let mut i: usize = 0;
        while i < self.votes.len()
            invariant
                i <= self.votes.len(),
                v == votes_view(self.votes@),
                m == max_count_prefix(v, i as int),
            decreases self.votes.len() - i,
        {
            if self.votes[i].1 > m {
                m = self.votes[i].1;
            }
            i = i + 1;
        }
        proof {
            lemma_best_rule_index(v);
        }
        let mut found = false;
        let mut k: usize = 0;
        let mut least: Vec<char> = Vec::new();
        let mut j: usize = 0;
        while j < self.votes.len()
            invariant
                j <= self.votes.len(),
                v == votes_view(self.votes@),
                m == max_count(v),
                found ==> k < j && k as int == least_with_count(v, m, j as int) && least@ == v[k as int].0,
                !found ==> least_with_count(v, m, j as int) == -1,
            decreases self.votes.len() - j,
        {
            if self.votes[j].1 == m {
                let cand = chars_of(self.votes[j].0.as_str());
                if !found || seq_lt_exec(&cand, &least) {
                    found = true;
                    k = j;
                    least = cand;
                }
            }
            j = j + 1;
        }
        proof {
            lemma_best_rule_index(v);
        }
        (m, k)
    }

    /// The index of the vote for `english`, if there is one.
    pub fn find_vote(&self, english: &String) -> (r: usize)
        ensures
            r == key_index(self@.votes, english@),
    {
        let ghost v = self@.votes;
        let mut i: usize = 0;
        while i < self.votes.len()
            invariant
                i <= self.votes.len(),
                v == votes_view(self.votes@),
                key_index(v, english@) == key_index_from(v, english@, i as int),
            decreases self.votes.len() - i,
        {
            if self.votes[i].0 == *english {
                return i;
            }
            i = i + 1;
        }
        i
    }

    /// Recomputes the best rendering and its count by the best rule.
    pub fn recalculate_best(&mut self)
        ensures
            final(self)@.part == old(self)@.part,
            final(self)@.votes == old(self)@.votes,
            (final(self)@.best, final(self)@.count) == best_rule(
                old(self)@.best,
                old(self)@.count,
                old(self)@.votes,
            ),
    {
        if self.votes.len() == 0 {
            self.english = None;
            self.count = None;
            return;
        }
        let (m, k) = self.max_and_least();
        let keep = match &self.english {
            Some(p) => {
                let i = self.find_vote(p);
                i < self.votes.len() && self.votes[i].1 == m && match self.count {
                    Some(c) => self.votes[i].1 >= c,
                    None => true,
                }
            },
            None => false,
        };
        if keep {
            self.count = Some(m);
        } else {
            self.english = Some(self.votes[k].0.clone());
            self.count = Some(self.votes[k].1);
        }
    }
}

/// One saturating increment of a vote count.
pub open spec fn bump(c: u32) -> u32 {
    if c < u32::MAX {
        (c + 1) as u32
    } else {
        c
    }
}

/// The votes after one more vote for `e`.
pub open spec fn add_vote(v: VoteSeq, e: Seq<char>) -> VoteSeq {
    let i = key_index(v, e);
    if i < v.len() {
        v.update(i, (e, bump(v[i].1)))
    } else {
        v.push((e, 1u32))
    }
}

/// A record after one more vote for `e`, reported as part `part`: the part is
/// taken when the record's part is still unknown, and the best is recomputed.
pub open spec fn vote_info(info: InfoView, e: Seq<char>, part: NamePart) -> InfoView {
    let votes = add_vote(info.votes, e);
    let b = best_rule(info.best, info.count, votes);
    InfoView {
        part: if info.part == NamePart::Unknown {
            part
        } else {
            info.part
        },
        votes,
        best: b.0,
        count: b.1,
    }
}

/// A record with no votes.
pub open spec fn empty_info(part: NamePart) -> InfoView {
    InfoView { part, votes: Seq::empty(), best: None, count: None }
}

impl NameInfo {
    /// Adds one vote for `english`, reported as part `part`.
    pub fn vote(&mut self, english: &String, part: NamePart)
        ensures
            final(self)@ == vote_info(old(self)@, english@, part),
    {
        if self.part == NamePart::Unknown {
            self.part = part;
        }
        let i = self.find_vote(english);
        proof {
            lemma_key_index_from(old(self)@.votes, english@, 0);
        }
        if i < self.votes.len() {
            let c = self.votes[i].1;
            let nc = if c < u32::MAX {
                c + 1
            } else {
                c
            };
            self.votes[i].1 = nc;
            assert(self@.votes =~= add_vote(old(self)@.votes, english@));
        } else {
            self.votes.push((english.clone(), 1u32));
            assert(self@.votes =~= add_vote(old(self)@.votes, english@));
        }
        self.recalculate_best();
    }
}

/// Records, each original with what it collected, in the order the store keeps them.
pub type RecordSeq = Seq<(Seq<char>, InfoView)>;

/// The records of `v` as plain values.
pub open spec fn records_view(v: Seq<(String, NameInfo)>) -> RecordSeq {
    v.map_values(|p: (String, NameInfo)| (p.0@, p.1@))
}

/// The first index at or after `i` whose original is `o`, or `r.len()`.
pub open spec fn orig_index_from(r: RecordSeq, o: Seq<char>, i: int) -> int
    decreases r.len() - i,
{
    if i >= r.len() || i < 0 {
        r.len() as int
    } else if r[i].0 == o {
        i
    } else {
        orig_index_from(r, o, i + 1)
    }
}

/// The index of the record of `o`, or `r.len()` when there is none.
pub open spec fn orig_index(r: RecordSeq, o: Seq<char>) -> int {
    orig_index_from(r, o, 0)
}

/// The records after one candidate: a rejected one changes nothing; an
/// accepted one is a vote on the record of its original, made when missing.
pub open spec fn record_step(r: RecordSeq, o: Seq<char>, e: Seq<char>, part: NamePart) -> RecordSeq {
    record_step_if(r, entry_accepted(o, e), o, e, part)
}

/// Whether the rules accept `(o, e)`, given `l` as the lower-cased form of `e`.
pub open spec fn accepted_lowered(o: Seq<char>, e: Seq<char>, l: Seq<char>) -> bool {
    !original_rejected(o) && !(e.len() == 0 || has_ws(e) || has_english_honorific(l))
}

/// The records after one candidate whose acceptance is `ok`.
pub open spec fn record_step_if(r: RecordSeq, ok: bool, o: Seq<char>, e: Seq<char>, part: NamePart) -> RecordSeq {
    if !ok {
        r
    } else {
        let i = orig_index(r, o);
        if i < r.len() {
            r.update(i, (o, vote_info(r[i].1, e, part)))
        } else {
            r.push((o, vote_info(empty_info(part), e, part)))
        }
    }
}

/// The records after each of `es` in turn.
pub open spec fn record_all(r: RecordSeq, es: Seq<NameEntry>) -> RecordSeq
    decreases es.len(),
{
    if es.len() == 0 {
        r
    } else {
        let e = es.last();
        record_step(record_all(r, es.drop_last()), e.original@, e.english@, e.part)
    }
}

/// The records after each of `es` in turn, with `ls[i]` taken as the
/// lower-cased rendering of `es[i]`.
pub open spec fn record_all_lowered(r: RecordSeq, es: Seq<NameEntry>, ls: Seq<Seq<char>>) -> RecordSeq
    decreases es.len(),
{
    if es.len() == 0 {
        r
    } else {
        let e = es.last();
        record_step_if(
            record_all_lowered(r, es.drop_last(), ls),
            accepted_lowered(e.original@, e.english@, ls[es.len() - 1]),
            e.original@,
            e.english@,
            e.part,
        )
    }
}

proof fn lemma_record_all_lowered(r: RecordSeq, es: Seq<NameEntry>, ls: Seq<Seq<char>>)
    requires
        ls.len() >= es.len(),
        forall|i: int| 0 <= i < es.len() ==> ls[i] == lower_of(#[trigger] es[i].english@),
    ensures
        record_all_lowered(r, es, ls) == record_all(r, es),
    decreases es.len(),
{
    if es.len() > 0 {
        let d = es.drop_last();
        assert forall|i: int| 0 <= i < d.len() implies ls[i] == lower_of(#[trigger] d[i].english@) by {
            assert(d[i] == es[i]);
        }
        lemma_record_all_lowered(r, d, ls);
        assert(es.last() == es[es.len() - 1]);
    }
}

proof fn lemma_orig_index_from(r: RecordSeq, o: Seq<char>, i: int)
    requires
        0 <= i <= r.len(),
    ensures
        i <= orig_index_from(r, o, i) <= r.len(),
        orig_index_from(r, o, i) < r.len() ==> r[orig_index_from(r, o, i)].0 == o,
        forall|j: int| i <= j < orig_index_from(r, o, i) ==> r[j].0 != o,
    decreases r.len() - i,
{
    if i < r.len() && r[i].0 != o {
        lemma_orig_index_from(r, o, i + 1);
    }
}

/// Failures of the store.
#[derive(Debug)]
pub enum NameMappingError {
    /// The stored file could not be read.
    ReadError(String),
    /// The stored file is not valid JSON of the expected shape.
    ParseError(String),
    /// The data break a rule of the store (an original or a rendering twice).
    InvalidStructure(String),
    /// The file could not be written.
    WriteError(String),
}

/// All the data of a store, as it is saved.
#[derive(Clone, Debug)]
pub struct NameMappingData {
    /// Each original with its record, in the order the store keeps them.
    pub names: Vec<(String, NameInfo)>,
    /// The chapter numbers already scouted, ascending and without repeats.
    pub coverage: Vec<u32>,
}

/// The consensus store of one work.
pub struct NameMappingStore {
    filepath: String,
    data: NameMappingData,
}

impl NameMappingStore {
    /// The records as plain values.
    pub closed spec fn records(&self) -> RecordSeq {
        records_view(self.data.names@)
    }

    /// Where the store is saved.
    pub closed spec fn path(&self) -> Seq<char> {
        self.filepath@
    }

    /// The covered chapters.
    pub closed spec fn covered(&self) -> Seq<u32> {
        self.data.coverage@
    }

    /// The index of the record of `original`, if there is one.
    fn find_record(&self, original: &String) -> (r: usize)
        ensures
            r == orig_index(self.records(), original@),
    {
        let ghost rs = self.records();
        let mut i: usize = 0;
        while i < self.data.names.len()
            invariant
                i <= self.data.names.len(),
                rs == self.records(),
                orig_index(rs, original@) == orig_index_from(rs, original@, i as int),
            decreases self.data.names.len() - i,
        {
            if self.data.names[i].0 == *original {
                return i;
            }
            i = i + 1;
        }
        i
    }

    fn record_one(&mut self, entry: &NameEntry, lower: &str)
        ensures
            final(self).records() == record_step_if(
                old(self).records(),
                accepted_lowered(entry.original@, entry.english@, lower@),
                entry.original@,
                entry.english@,
                entry.part,
            ),
            final(self).covered() == old(self).covered(),
            final(self).path() == old(self).path(),
    {
        if !(original_is_valid(entry.original.as_str()) && english_is_valid_lowered(
            entry.english.as_str(),
            lower,
        )) {
            return;
        }
        let i = self.find_record(&entry.original);
        proof {
            lemma_orig_index_from(old(self).records(), entry.original@, 0);
        }
        if i < self.data.names.len() {
            self.data.names[i].1.vote(&entry.english, entry.part);
            assert(self.records() =~= record_step_if(
                old(self).records(),
                true,
                entry.original@,
                entry.english@,
                entry.part,
            ));
        } else {
            let mut info = NameInfo::new(entry.part);
            info.vote(&entry.english, entry.part);
            assert(info@ == vote_info(empty_info(entry.part), entry.english@, entry.part)) by {
                assert(info@.votes =~= add_vote(Seq::empty(), entry.english@));
            }
            self.data.names.push((entry.original.clone(), info));
            assert(self.records() =~= record_step_if(
                old(self).records(),
                true,
                entry.original@,
                entry.english@,
                entry.part,
            ));
        }
    }

    /// Adds one vote for each candidate that passes every rule, in order,
    /// taking `lowered[i]` as the lower-cased rendering of `entries[i]` for
    /// the rule on romanised honorifics. Given the true lower-cased forms,
    /// this is `record_votes`, and the store invariant is kept.
    pub fn record_votes_lowered(&mut self, entries: &[NameEntry], lowered: &[String])
        requires
            lowered.len() == entries.len(),
        ensures
            final(self).records() == record_all_lowered(
                old(self).records(),
                entries@,
                crate::chunker::string_views(lowered@),
            ),
            final(self).covered() == old(self).covered(),
            final(self).path() == old(self).path(),
    {
        let ghost ls = crate::chunker::string_views(lowered@);
        let mut i: usize = 0;
        while i < entries.len()
            invariant
                i <= entries@.len(),
                lowered.len() == entries.len(),
                ls == crate::chunker::string_views(lowered@),
                self.records() == record_all_lowered(old(self).records(), entries@.take(i as int), ls),
                self.covered() == old(self).covered(),
                self.path() == old(self).path(),
            decreases entries.len() - i,
        {
            self.record_one(&entries[i], lowered[i].as_str());
            assert(entries@.take(i + 1).drop_last() =~= entries@.take(i as int));
            assert(entries@.take(i + 1).last() == entries@[i as int]);
            i = i + 1;
        }
        assert(entries@.take(entries@.len() as int) =~= entries@);
    }

    /// Adds one vote for each candidate that passes every rule, in order.
    pub fn record_votes(&mut self, entries: &[NameEntry])
        requires
            old(self).wf(),
        ensures
            final(self).wf(),
            final(self).records() == record_all(old(self).records(), entries@),
            final(self).covered() == old(self).covered(),
            final(self).path() == old(self).path(),
    {
        let mut lowered: Vec<String> = Vec::new();
        let mut i: usize = 0;
        while i < entries.len()
            invariant
                i <= entries@.len(),
                lowered.len() == i,
                forall|k: int| 0 <= k < i ==> lowered@[k]@ == lower_of(#[trigger] entries@[k].english@),
            decreases entries.len() - i,
        {
            lowered.push(crate::text::lowercase(entries[i].english.as_str()));
            i = i + 1;
        }
        self.record_votes_lowered(entries, lowered.as_slice());
        proof {
            let ls = crate::chunker::string_views(lowered@);
            assert forall|k: int| 0 <= k < entries@.len() implies ls[k] == lower_of(
                #[trigger] entries@[k].english@,
            ) by {}
            lemma_record_all_lowered(old(self).records(), entries@, ls);
            lemma_record_all_wf(old(self).records(), entries@);
        }
    }
}

/// The votes whose rendering passes every rule, in order.
pub open spec fn filter_votes(v: VoteSeq) -> VoteSeq
    decreases v.len(),
{
    if v.len() == 0 {
        v
    } else {
        let rest = filter_votes(v.drop_last());
        if english_rejected(v.last().0) {
            rest
        } else {
            rest.push(v.last())
        }
    }
}

/// A record with its rejected votes removed and its best recomputed.
pub open spec fn purge_info(info: InfoView) -> InfoView {
    let votes = filter_votes(info.votes);
    let b = best_rule(info.best, info.count, votes);
    InfoView { part: info.part, votes, best: b.0, count: b.1 }
}

/// The records after the purge: a record whose original breaks a rule goes,
/// the others lose their rejected votes, and a record left with none goes.
pub open spec fn purge_records(r: RecordSeq) -> RecordSeq
    decreases r.len(),
{
    if r.len() == 0 {
        r
    } else {
        let rest = purge_records(r.drop_last());
        let o = r.last().0;
        let p = purge_info(r.last().1);
        if original_rejected(o) || p.votes.len() == 0 {
            rest
        } else {
            rest.push((o, p))
        }
    }
}

/// Records that the purge leaves as they are.
pub open spec fn records_clean(r: RecordSeq) -> bool {
    forall|k: int| 0 <= k < r.len() ==> record_clean(#[trigger] r[k])
}

/// A record that the purge leaves as it is.
pub open spec fn record_clean(x: (Seq<char>, InfoView)) -> bool {
    &&& !original_rejected(x.0)
    &&& x.1.votes.len() > 0
    &&& purge_info(x.1) == x.1
}

proof fn lemma_filter_votes_accepted(v: VoteSeq)
    ensures
        forall|k: int| 0 <= k < filter_votes(v).len() ==> !english_rejected(#[trigger] filter_votes(v)[k].0),
    decreases v.len(),
{
    if v.len() > 0 {
        lemma_filter_votes_accepted(v.drop_last());
        let rest = filter_votes(v.drop_last());
        if !english_rejected(v.last().0) {
            assert forall|k: int| 0 <= k < rest.push(v.last()).len() implies !english_rejected(
                #[trigger] rest.push(v.last())[k].0,
            ) by {
                if k < rest.len() {
                    assert(rest.push(v.last())[k] == rest[k]);
                }
            }
        }
    }
}

proof fn lemma_filter_votes_keeps(v: VoteSeq)
    requires
        forall|k: int| 0 <= k < v.len() ==> !english_rejected(#[trigger] v[k].0),
    ensures
        filter_votes(v) == v,
    decreases v.len(),
{
    if v.len() > 0 {
        lemma_filter_votes_keeps(v.drop_last());
        assert(v.drop_last().push(v.last()) =~= v);
    }
}

proof fn lemma_purge_info_stable(info: InfoView)
    ensures
        purge_info(purge_info(info)) == purge_info(info),
{
    let p = purge_info(info);
    lemma_filter_votes_accepted(info.votes);
    lemma_filter_votes_keeps(p.votes);
    lemma_best_rule_stable(info.best, info.count, p.votes);
}

proof fn lemma_purge_clean(r: RecordSeq)
    ensures
        records_clean(purge_records(r)),
    decreases r.len(),
{
    if r.len() > 0 {
        lemma_purge_clean(r.drop_last());
        lemma_purge_info_stable(r.last().1);
        let rest = purge_records(r.drop_last());
        let x = (r.last().0, purge_info(r.last().1));
        if !original_rejected(x.0) && x.1.votes.len() > 0 {
            assert forall|k: int| 0 <= k < rest.push(x).len() implies record_clean(
                #[trigger] rest.push(x)[k],
            ) by {
                if k < rest.len() {
                    assert(rest.push(x)[k] == rest[k]);
                }
            }
        }
    }
}

proof fn lemma_purge_keeps_clean(r: RecordSeq)
    requires
        records_clean(r),
    ensures
        purge_records(r) == r,
    decreases r.len(),
{
    if r.len() > 0 {
        let d = r.drop_last();
        assert forall|k: int| 0 <= k < d.len() implies record_clean(#[trigger] d[k]) by {
            assert(d[k] == r[k]);
        }
        lemma_purge_keeps_clean(d);
        assert(r.last() == r[r.len() - 1]);
        assert(d.push(r.last()) =~= r);
    }
}

/// The purge is idempotent: purging purged records changes nothing.
pub proof fn lemma_purge_idempotent(r: RecordSeq)
    ensures
        purge_records(purge_records(r)) == purge_records(r),
{
    lemma_purge_clean(r);
    lemma_purge_keeps_clean(purge_records(r));
}

fn filter_votes_exec(votes: &Vec<(String, u32)>) -> (r: Vec<(String, u32)>)
    ensures
        votes_view(r@) == filter_votes(votes_view(votes@)),
{
    let ghost v = votes_view(votes@);
    let mut r: Vec<(String, u32)> = Vec::new();
    let mut i: usize = 0;
    while i < votes.len()
        invariant
            i <= votes.len(),
            v == votes_view(votes@),
            votes_view(r@) == filter_votes(v.take(i as int)),
        decreases votes.len() - i,
    {
        assert(v.take(i + 1).drop_last() =~= v.take(i as int));
        if english_is_valid(votes[i].0.as_str()) {
            r.push((votes[i].0.clone(), votes[i].1));
            assert(votes_view(r@) =~= filter_votes(v.take(i + 1)));
        }
        i = i + 1;
    }
    assert(v.take(v.len() as int) =~= v);
    r
}

impl NameInfo {
    /// The record with its rejected votes removed and its best recomputed.
    pub fn purged(&self) -> (r: NameInfo)
        ensures
            r@ == purge_info(self@),
    {
        let votes = filter_votes_exec(&self.votes);
        let english = match &self.english {
            Some(e) => Some(e.clone()),
            None => None,
        };
        let mut r = NameInfo { part: self.part, votes, english, count: self.count };
        r.recalculate_best();
        r
    }
}

impl NameMappingStore {
    /// Applies the rules again to every record and vote: records whose
    /// original breaks a rule and votes whose rendering breaks one are
    /// removed, each best is recomputed, and records left without votes go.
    pub fn purge_bad_votes(&mut self)
        requires
            records_unique(old(self).records()),
            strictly_ascending(old(self).covered()),
        ensures
            final(self).wf(),
            final(self).records() == purge_records(old(self).records()),
            final(self).covered() == old(self).covered(),
            final(self).path() == old(self).path(),
    {
        self.purge_all();
        proof {
            lemma_purge_clean(old(self).records());
            lemma_purge_unique(old(self).records());
        }
    }

    fn purge_all(&mut self)
        ensures
            final(self).records() == purge_records(old(self).records()),
            final(self).covered() == old(self).covered(),
            final(self).path() == old(self).path(),
    {
        let mut old_names: Vec<(String, NameInfo)> = Vec::new();
        std::mem::swap(&mut old_names, &mut self.data.names);
        let ghost r = records_view(old_names@);
        assert(r == old(self).records());
        let mut i: usize = 0;
        while i < old_names.len()
            invariant
                i <= old_names.len(),
                r == records_view(old_names@),
                self.records() == purge_records(r.take(i as int)),
                self.covered() == old(self).covered(),
                self.path() == old(self).path(),
            decreases old_names.len() - i,
        {
            assert(r.take(i + 1).drop_last() =~= r.take(i as int));
            if original_is_valid(old_names[i].0.as_str()) {
                let p = old_names[i].1.purged();
                if p.votes.len() > 0 {
                    self.data.names.push((old_names[i].0.clone(), p));
                    assert(self.records() =~= purge_records(r.take(i + 1)));
                }
            }
            i = i + 1;
        }
        assert(r.take(r.len() as int) =~= r);
    }
}

/// Whether `v` is strictly ascending (so also without repeats).
pub open spec fn strictly_ascending(v: Seq<u32>) -> bool {
    forall|i: int, j: int| 0 <= i < j < v.len() ==> v[i] < v[j]
}

/// How many elements of `v` are below `x`.
pub open spec fn count_below(v: Seq<u32>, x: u32) -> int
    decreases v.len(),
{
    if v.len() == 0 {
        0
    } else {
        count_below(v.drop_last(), x) + if v.last() < x {
            1int
        } else {
            0int
        }
    }
}

/// `v` with `x` inserted at its place, unless `v` already holds it.
pub open spec fn insert_sorted(v: Seq<u32>, x: u32) -> Seq<u32> {
    if v.contains(x) {
        v
    } else {
        v.take(count_below(v, x)).push(x) + v.skip(count_below(v, x))
    }
}

/// `v` with each of `xs` inserted in turn.
pub open spec fn insert_all(v: Seq<u32>, xs: Seq<u32>) -> Seq<u32>
    decreases xs.len(),
{
    if xs.len() == 0 {
        v
    } else {
        insert_sorted(insert_all(v, xs.drop_last()), xs.last())
    }
}

/// `k` splits `v` into the elements below `x` and those above it.
pub open spec fn split_point(v: Seq<u32>, x: u32, k: int) -> bool {
    0 <= k <= v.len() && (forall|i: int| 0 <= i < k ==> v[i] < x) && (forall|i: int|
        k <= i < v.len() ==> v[i] > x)
}

proof fn lemma_count_below(v: Seq<u32>, x: u32, k: int)
    requires
        strictly_ascending(v),
        0 <= k <= v.len(),
        forall|i: int| 0 <= i < k ==> v[i] < x,
        forall|i: int| k <= i < v.len() ==> v[i] >= x,
    ensures
        count_below(v, x) == k,
    decreases v.len(),
{
    if v.len() > 0 {
        if k == v.len() {
            lemma_count_below(v.drop_last(), x, k - 1);
        } else {
            lemma_count_below(v.drop_last(), x, k);
        }
    }
}

proof fn lemma_insert_sorted(v: Seq<u32>, x: u32)
    requires
        strictly_ascending(v),
    ensures
        strictly_ascending(insert_sorted(v, x)),
        forall|y: u32| insert_sorted(v, x).contains(y) <==> (v.contains(y) || y == x),
{
    if !v.contains(x) {
        lemma_insert_point(v, x);
        let k = choose|k: int| split_point(v, x, k);
        lemma_count_below(v, x, k);
        let w = insert_sorted(v, x);
        assert(w =~= v.take(k).push(x) + v.skip(k));
        assert forall|y: u32| w.contains(y) <==> (v.contains(y) || y == x) by {
            if w.contains(y) {
                let i = choose|i: int| 0 <= i < w.len() && w[i] == y;
                if i < k {
                    assert(w[i] == v[i]);
                } else if i > k {
                    assert(w[i] == v[i - 1]);
                }
            }
            if v.contains(y) {
                let i = choose|i: int| 0 <= i < v.len() && v[i] == y;
                if i < k {
                    assert(w[i] == y);
                } else {
                    assert(w[i + 1] == y);
                }
            }
            if y == x {
                assert(w[k] == y);
            }
        }
    }
}

proof fn lemma_insert_point(v: Seq<u32>, x: u32)
    requires
        strictly_ascending(v),
        !v.contains(x),
    ensures
        exists|k: int| split_point(v, x, k),
    decreases v.len(),
{
    if v.len() == 0 {
        assert(split_point(v, x, 0));
    } else {
        let d = v.drop_last();
        assert(strictly_ascending(d)) by {
            assert forall|i: int, j: int| 0 <= i < j < d.len() implies d[i] < d[j] by {
                assert(d[i] == v[i] && d[j] == v[j]);
            }
        }
        assert(!d.contains(x)) by {
            if d.contains(x) {
                let i = choose|i: int| 0 <= i < d.len() && d[i] == x;
                assert(v[i] == x);
            }
        }
        lemma_insert_point(d, x);
        let k = choose|k: int| split_point(d, x, k);
        assert(v[v.len() - 1] != x);
        if v.last() < x {
            assert(forall|i: int| 0 <= i < v.len() ==> v[i] < x) by {
                assert forall|i: int| 0 <= i < v.len() implies v[i] < x by {
                    if i < v.len() - 1 {
                        assert(v[i] < v[v.len() - 1]);
                    }
                }
            }
            assert(split_point(v, x, v.len() as int));
        } else {
            assert(forall|i: int| 0 <= i < k ==> v[i] < x) by {
                assert forall|i: int| 0 <= i < k implies v[i] < x by {
                    assert(d[i] == v[i]);
                }
            }
            assert(forall|i: int| k <= i < v.len() ==> v[i] > x) by {
                assert forall|i: int| k <= i < v.len() implies v[i] > x by {
                    if i < v.len() - 1 {
                        assert(d[i] == v[i]);
                    }
                }
            }
            assert(split_point(v, x, k));
        }
    }
}

/// Coverage after inserting any chapters stays ascending without repeats,
/// holds exactly the old chapters and the new ones, and inserting the same
/// chapters again changes nothing.
pub proof fn lemma_coverage_union(v: Seq<u32>, xs: Seq<u32>)
    requires
        strictly_ascending(v),
    ensures
        strictly_ascending(insert_all(v, xs)),
        forall|y: u32| insert_all(v, xs).contains(y) <==> (v.contains(y) || xs.contains(y)),
        insert_all(insert_all(v, xs), xs) == insert_all(v, xs),
    decreases xs.len(),
{
    if xs.len() > 0 {
        lemma_coverage_union(v, xs.drop_last());
        let w = insert_all(v, xs.drop_last());
        if !w.contains(xs.last()) {
            lemma_insert_point(w, xs.last());
        }
        lemma_insert_sorted(w, xs.last());
        assert forall|y: u32| insert_all(v, xs).contains(y) <==> (v.contains(y) || xs.contains(y)) by {
            if xs.drop_last().contains(y) {
                let i = choose|i: int| 0 <= i < xs.drop_last().len() && xs.drop_last()[i] == y;
                assert(xs[i] == y);
            }
            if xs.contains(y) && y != xs.last() {
                let i = choose|i: int| 0 <= i < xs.len() && xs[i] == y;
                assert(xs.drop_last()[i] == y);
            }
        }
        assert forall|i: int| 0 <= i < xs.len() implies insert_all(v, xs).contains(#[trigger] xs[i]) by {
            assert(xs.contains(xs[i]));
        }
        lemma_insert_all_present(insert_all(v, xs), xs);
    }
}

proof fn lemma_insert_all_present(v: Seq<u32>, xs: Seq<u32>)
    requires
        forall|i: int| 0 <= i < xs.len() ==> v.contains(#[trigger] xs[i]),
    ensures
        insert_all(v, xs) == v,
    decreases xs.len(),
{
    if xs.len() > 0 {
        assert forall|i: int| 0 <= i < xs.drop_last().len() implies v.contains(
            #[trigger] xs.drop_last()[i],
        ) by {
            assert(xs.drop_last()[i] == xs[i]);
        }
        lemma_insert_all_present(v, xs.drop_last());
        assert(v.contains(xs[xs.len() - 1]));
    }
}

fn insert_chapter(v: &mut Vec<u32>, x: u32)
    requires
        strictly_ascending(old(v)@),
    ensures
        final(v)@ == insert_sorted(old(v)@, x),
        strictly_ascending(final(v)@),
{
    let mut k: usize = 0;
    while k < v.len() && v[k] < x
        invariant
            k <= v.len(),
            v@ == old(v)@,
            strictly_ascending(v@),
            forall|i: int| 0 <= i < k ==> v@[i] < x,
        decreases v.len() - k,
    {
        k = k + 1;
    }
    proof {
        assert forall|i: int| k <= i < v@.len() implies v@[i] >= x by {
            if i > k {
                assert(v@[k as int] < v@[i]);
            }
        }
        lemma_count_below(v@, x, k as int);
        lemma_insert_sorted(v@, x);
    }
    if k < v.len() && v[k] == x {
        return;
    }
    proof {
        assert(!v@.contains(x)) by {
            if v@.contains(x) {
                let i = choose|i: int| 0 <= i < v@.len() && v@[i] == x;
                if i > k {
                    assert(v@[k as int] < v@[i]);
                }
            }
        }
    }
    v.insert(k, x);
    assert(v@ =~= old(v)@.take(k as int).push(x) + old(v)@.skip(k as int));
}

impl NameMappingStore {
    /// Whether chapter `chapter_number` has been scouted.
    pub fn is_chapter_covered(&self, chapter_number: u32) -> (r: bool)
        ensures
            r == self.covered().contains(chapter_number),
    {
        let mut i: usize = 0;
        while i < self.data.coverage.len()
            invariant
                i <= self.data.coverage.len(),
                forall|j: int| 0 <= j < i ==> self.covered()[j] != chapter_number,
            decreases self.data.coverage.len() - i,
        {
            if self.data.coverage[i] == chapter_number {
                assert(self.covered()[i as int] == chapter_number);
                return true;
            }
            i = i + 1;
        }
        false
    }

    /// Marks `chapters` as scouted; the coverage stays ascending without repeats.
    pub fn add_coverage(&mut self, chapters: &[u32])
        requires
            old(self).wf(),
        ensures
            final(self).wf(),
            final(self).covered() == insert_all(old(self).covered(), chapters@),
            final(self).records() == old(self).records(),
            final(self).path() == old(self).path(),
    {
        let mut i: usize = 0;
        while i < chapters.len()
            invariant
                i <= chapters@.len(),
                self.covered() == insert_all(old(self).covered(), chapters@.take(i as int)),
                strictly_ascending(self.covered()),
                self.records() == old(self).records(),
                self.path() == old(self).path(),
            decreases chapters.len() - i,
        {
            insert_chapter(&mut self.data.coverage, chapters[i]);
            assert(chapters@.take(i + 1).drop_last() =~= chapters@.take(i as int));
            i = i + 1;
        }
        assert(chapters@.take(chapters@.len() as int) =~= chapters@);
    }
}

/// No rendering has two votes entries.
pub open spec fn votes_unique(v: VoteSeq) -> bool {
    forall|i: int, j: int| 0 <= i < j < v.len() ==> v[i].0 != v[j].0
}

/// No original has two records, and no record has a rendering twice.
pub open spec fn records_unique(r: RecordSeq) -> bool {
    &&& forall|i: int, j: int| 0 <= i < j < r.len() ==> r[i].0 != r[j].0
    &&& forall|k: int| 0 <= k < r.len() ==> votes_unique(#[trigger] r[k].1.votes)
}

proof fn lemma_add_vote_unique(v: VoteSeq, e: Seq<char>)
    requires
        votes_unique(v),
    ensures
        votes_unique(add_vote(v, e)),
        forall|k: int| 0 <= k < add_vote(v, e).len() ==> (#[trigger] add_vote(v, e)[k]).0 == e || exists|j: int| 0 <= j < v.len() && v[j] == add_vote(v, e)[k],
{
    lemma_key_index_from(v, e, 0);
    let w = add_vote(v, e);
    assert forall|k: int| 0 <= k < w.len() implies (#[trigger] w[k]).0 == e || exists|j: int| 0 <= j < v.len() && v[j] == w[k] by {
        if k < v.len() && k != key_index(v, e) {
            assert(v[k] == w[k]);
        }
    }
}

proof fn lemma_vote_info_clean(info: InfoView, e: Seq<char>, part: NamePart)
    requires
        purge_info(info) == info,
        !english_rejected(e),
    ensures
        purge_info(vote_info(info, e, part)) == vote_info(info, e, part),
        vote_info(info, e, part).votes.len() > 0,
{
    lemma_filter_votes_accepted(info.votes);
    let w = add_vote(info.votes, e);
    lemma_key_index_from(info.votes, e, 0);
    assert forall|k: int| 0 <= k < w.len() implies !english_rejected(#[trigger] w[k].0) by {
        if k < info.votes.len() && k != key_index(info.votes, e) {
            assert(w[k] == info.votes[k]);
        }
    }
    lemma_filter_votes_keeps(w);
    lemma_best_rule_stable(info.best, info.count, w);
}

proof fn lemma_record_step_wf(r: RecordSeq, o: Seq<char>, e: Seq<char>, part: NamePart)
    requires
        records_clean(r),
        records_unique(r),
    ensures
        records_clean(record_step(r, o, e, part)),
        records_unique(record_step(r, o, e, part)),
{
    if entry_accepted(o, e) {
        lemma_orig_index_from(r, o, 0);
        let i = orig_index(r, o);
        let w = record_step(r, o, e, part);
        if i < r.len() {
            assert(record_clean(r[i]));
            lemma_vote_info_clean(r[i].1, e, part);
            lemma_add_vote_unique(r[i].1.votes, e);
            assert forall|k: int| 0 <= k < w.len() implies record_clean(#[trigger] w[k]) by {
                if k != i {
                    assert(w[k] == r[k]);
                }
            }
            assert forall|k: int| 0 <= k < w.len() implies votes_unique(#[trigger] w[k].1.votes) by {
                if k != i {
                    assert(w[k] == r[k]);
                }
            }
        } else {
            assert(purge_info(empty_info(part)) == empty_info(part)) by {
                assert(filter_votes(Seq::<(Seq<char>, u32)>::empty()) =~= Seq::<(Seq<char>, u32)>::empty());
            }
            lemma_vote_info_clean(empty_info(part), e, part);
            lemma_add_vote_unique(empty_info(part).votes, e);
            assert forall|k: int| 0 <= k < w.len() implies record_clean(#[trigger] w[k]) by {
                if k < r.len() {
                    assert(w[k] == r[k]);
                }
            }
            assert forall|k: int| 0 <= k < w.len() implies votes_unique(#[trigger] w[k].1.votes) by {
                if k < r.len() {
                    assert(w[k] == r[k]);
                }
            }
        }
    }
}

proof fn lemma_record_all_wf(r: RecordSeq, es: Seq<NameEntry>)
    requires
        records_clean(r),
        records_unique(r),
    ensures
        records_clean(record_all(r, es)),
        records_unique(record_all(r, es)),
    decreases es.len(),
{
    if es.len() > 0 {
        lemma_record_all_wf(r, es.drop_last());
        let e = es.last();
        lemma_record_step_wf(record_all(r, es.drop_last()), e.original@, e.english@, e.part);
    }
}

proof fn lemma_filter_votes_from(v: VoteSeq)
    ensures
        forall|k: int| 0 <= k < filter_votes(v).len() ==> exists|j: int| 0 <= j < v.len() && v[j] == #[trigger] filter_votes(v)[k],
        votes_unique(v) ==> votes_unique(filter_votes(v)),
    decreases v.len(),
{
    if v.len() > 0 {
        let d = v.drop_last();
        lemma_filter_votes_from(d);
        let rest = filter_votes(d);
        assert forall|k: int| 0 <= k < filter_votes(v).len() implies exists|j: int| 0 <= j < v.len() && v[j] == #[trigger] filter_votes(v)[k] by {
            if k < rest.len() {
                let j = choose|j: int| 0 <= j < d.len() && d[j] == rest[k];
                assert(v[j] == d[j]);
                assert(filter_votes(v)[k] == rest[k]);
            } else {
                assert(v[v.len() - 1] == filter_votes(v)[k]);
            }
        }
        if votes_unique(v) {
            assert(votes_unique(d)) by {
                assert forall|i: int, j: int| 0 <= i < j < d.len() implies d[i].0 != d[j].0 by {
                    assert(d[i] == v[i] && d[j] == v[j]);
                }
            }
            if !english_rejected(v.last().0) {
                assert forall|i: int, j: int| 0 <= i < j < rest.push(v.last()).len() implies rest.push(v.last())[i].0 != rest.push(v.last())[j].0 by {
                    if j == rest.len() {
                        let jj = choose|jj: int| 0 <= jj < d.len() && d[jj] == rest[i];
                        assert(v[jj] == d[jj]);
                        assert(v[jj].0 != v[v.len() - 1].0);
                    } else {
                        assert(rest.push(v.last())[i] == rest[i]);
                        assert(rest.push(v.last())[j] == rest[j]);
                    }
                }
            }
        }
    }
}

proof fn lemma_purge_unique(r: RecordSeq)
    requires
        records_unique(r),
    ensures
        records_unique(purge_records(r)),
        forall|k: int| 0 <= k < purge_records(r).len() ==> exists|j: int| 0 <= j < r.len() && r[j].0 == (#[trigger] purge_records(r)[k]).0,
    decreases r.len(),
{
    if r.len() > 0 {
        let d = r.drop_last();
        assert(records_unique(d)) by {
            assert forall|i: int, j: int| 0 <= i < j < d.len() implies d[i].0 != d[j].0 by {
                assert(d[i] == r[i] && d[j] == r[j]);
            }
            assert forall|k: int| 0 <= k < d.len() implies votes_unique(#[trigger] d[k].1.votes) by {
                assert(d[k] == r[k]);
            }
        }
        lemma_purge_unique(d);
        let rest = purge_records(d);
        let x = (r.last().0, purge_info(r.last().1));
        lemma_filter_votes_from(r.last().1.votes);
        assert(votes_unique(r[r.len() - 1].1.votes));
        if !original_rejected(x.0) && x.1.votes.len() > 0 {
            let w = rest.push(x);
            assert forall|i: int, j: int| 0 <= i < j < w.len() implies w[i].0 != w[j].0 by {
                if j == rest.len() {
                    assert(w[i] == rest[i]);
                    let jj = choose|jj: int| 0 <= jj < d.len() && d[jj].0 == (#[trigger] rest[i]).0;
                    assert(r[jj] == d[jj]);
                } else {
                    assert(w[i] == rest[i] && w[j] == rest[j]);
                }
            }
            assert forall|k: int| 0 <= k < w.len() implies votes_unique(#[trigger] w[k].1.votes) by {
                if k < rest.len() {
                    assert(w[k] == rest[k]);
                }
            }
        }
        assert forall|k: int| 0 <= k < purge_records(r).len() implies exists|j: int| 0 <= j < r.len() && r[j].0 == (#[trigger] purge_records(r)[k]).0 by {
            if k < rest.len() {
                assert(purge_records(r)[k] == rest[k]);
                let jj = choose|jj: int| 0 <= jj < d.len() && d[jj].0 == (#[trigger] rest[k]).0;
                assert(r[jj] == d[jj]);
            } else {
                assert(r[r.len() - 1].0 == purge_records(r)[k].0);
            }
        }
    }
}

proof fn lemma_insert_all_ascending(c: Seq<u32>)
    requires
        strictly_ascending(c),
    ensures
        insert_all(Seq::empty(), c) == c,
    decreases c.len(),
{
    if c.len() > 0 {
        let d = c.drop_last();
        assert(strictly_ascending(d)) by {
            assert forall|i: int, j: int| 0 <= i < j < d.len() implies d[i] < d[j] by {
                assert(d[i] == c[i] && d[j] == c[j]);
            }
        }
        lemma_insert_all_ascending(d);
        let x = c.last();
        assert(!d.contains(x)) by {
            if d.contains(x) {
                let i = choose|i: int| 0 <= i < d.len() && d[i] == x;
                assert(c[i] == d[i]);
                assert(c[i] < c[c.len() - 1]);
            }
        }
        assert forall|i: int| 0 <= i < d.len() implies d[i] < x by {
            assert(c[i] == d[i]);
            assert(c[i] < c[c.len() - 1]);
        }
        lemma_count_below(d, x, d.len() as int);
        assert(d.take(d.len() as int).push(x) + d.skip(d.len() as int) =~= c);
    }
}

proof fn lemma_reload_round_trip(r: RecordSeq, c: Seq<u32>)
    requires
        records_clean(r),
        records_unique(r),
        strictly_ascending(c),
    ensures
        purge_records(r) == r,
        insert_all(Seq::empty(), c) == c,
{
    lemma_purge_keeps_clean(r);
    lemma_insert_all_ascending(c);
}

/// The file name of a store: `<module>: <work>.json`.
pub open spec fn store_file_name(module_name: Seq<char>, novel_id: Seq<char>) -> Seq<char> {
    module_name + seq![':', ' '] + novel_id + seq!['.', 'j', 's', 'o', 'n']
}

/// `name` inside directory `dir`.
pub open spec fn path_in_dir(dir: Seq<char>, name: Seq<char>) -> Seq<char> {
    if dir.len() == 0 || dir.last() == '/' {
        dir + name
    } else {
        dir + seq!['/'] + name
    }
}

fn vote_keys_unique(v: &Vec<(String, u32)>) -> (r: bool)
    ensures
        r == votes_unique(votes_view(v@)),
{
    let ghost w = votes_view(v@);
    let mut i: usize = 0;
    while i < v.len()
        invariant
            i <= v.len(),
            w == votes_view(v@),
            forall|a: int, b: int| 0 <= a < b < w.len() && a < i ==> w[a].0 != w[b].0,
        decreases v.len() - i,
    {
        let mut j: usize = i + 1;
        while j < v.len()
            invariant
                i < j <= v.len(),
                w == votes_view(v@),
                forall|a: int, b: int| 0 <= a < b < w.len() && a < i ==> w[a].0 != w[b].0,
                forall|b: int| i < b < j ==> w[i as int].0 != w[b].0,
            decreases v.len() - j,
        {
            if v[i].0 == v[j].0 {
                assert(w[i as int].0 == w[j as int].0);
                return false;
            }
            j = j + 1;
        }
        i = i + 1;
    }
    true
}

fn names_unique(names: &Vec<(String, NameInfo)>) -> (r: bool)
    ensures
        r == records_unique(records_view(names@)),
{
    let ghost w = records_view(names@);
    let mut i: usize = 0;
    while i < names.len()
        invariant
            i <= names.len(),
            w == records_view(names@),
            forall|a: int, b: int| 0 <= a < b < w.len() && a < i ==> w[a].0 != w[b].0,
            forall|k: int| 0 <= k < i ==> votes_unique(#[trigger] w[k].1.votes),
        decreases names.len() - i,
    {
        if !vote_keys_unique(&names[i].1.votes) {
            assert(w[i as int].1.votes == votes_view(names@[i as int].1.votes@));
            assert(!votes_unique(w[i as int].1.votes));
            return false;
        }
        let mut j: usize = i + 1;
        while j < names.len()
            invariant
                i < j <= names.len(),
                w == records_view(names@),
                forall|a: int, b: int| 0 <= a < b < w.len() && a < i ==> w[a].0 != w[b].0,
                forall|b: int| i < b < j ==> w[i as int].0 != w[b].0,
            decreases names.len() - j,
        {
            if names[i].0 == names[j].0 {
                assert(w[i as int].0 == w[j as int].0);
                return false;
            }
            j = j + 1;
        }
        i = i + 1;
    }
    true
}

impl NameMappingStore {
    /// The store invariant: every record passes the rules and keeps at least
    /// one vote, its best agrees with the best rule, keys are unique, and the
    /// coverage is ascending without repeats.
    pub open spec fn wf(&self) -> bool {
        &&& records_clean(self.records())
        &&& records_unique(self.records())
        &&& strictly_ascending(self.covered())
    }

    /// An empty store for work `novel_id` of module `module_name`, saved as
    /// `<module_name>: <novel_id>.json` in `names_dir`.
    pub fn new(names_dir: &str, module_name: &str, novel_id: &str) -> (r: NameMappingStore)
        ensures
            r.wf(),
            r.records().len() == 0,
            r.covered().len() == 0,
            r.path() == path_in_dir(names_dir@, store_file_name(module_name@, novel_id@)),
    {
        let mut path = crate::text::chars_of(names_dir);
        if path.len() > 0 && path[path.len() - 1] != '/' {
            path.push('/');
        }
        crate::text::append_str(&mut path, module_name);
        path.push(':');
        path.push(' ');
        crate::text::append_str(&mut path, novel_id);
        path.push('.');
        path.push('j');
        path.push('s');
        path.push('o');
        path.push('n');
        assert(path@ =~= path_in_dir(names_dir@, store_file_name(module_name@, novel_id@)));
        let r = NameMappingStore {
            filepath: crate::text::string_of(&path),
            data: NameMappingData { names: Vec::new(), coverage: Vec::new() },
        };
        assert(r.records() =~= Seq::<(Seq<char>, InfoView)>::empty());
        r
    }

    /// Replaces the whole state by `data` (as read back from a file) and
    /// purges it. Data with an original or a rendering twice are refused and
    /// the state is left as it was.
    pub fn replace_data(&mut self, data: NameMappingData) -> (r: Result<(), NameMappingError>)
        ensures
            r is Ok <==> records_unique(records_view(data.names@)),
            r is Ok ==> final(self).records() == purge_records(records_view(data.names@))
                && final(self).covered() == insert_all(Seq::empty(), data.coverage@)
                && final(self).wf(),
            r is Err ==> *final(self) == *old(self),
            final(self).path() == old(self).path(),
    {
        if !names_unique(&data.names) {
            return Err(NameMappingError::InvalidStructure(
                crate::text::string_of(&vec!['d', 'u', 'p', 'l', 'i', 'c', 'a', 't', 'e', ' ', 'k', 'e', 'y']),
            ));
        }
        let mut coverage: Vec<u32> = Vec::new();
        let mut i: usize = 0;
        while i < data.coverage.len()
            invariant
                i <= data.coverage@.len(),
                coverage@ == insert_all(Seq::empty(), data.coverage@.take(i as int)),
                strictly_ascending(coverage@),
            decreases data.coverage.len() - i,
        {
            insert_chapter(&mut coverage, data.coverage[i]);
            assert(data.coverage@.take(i + 1).drop_last() =~= data.coverage@.take(i as int));
            i = i + 1;
        }
        assert(data.coverage@.take(data.coverage@.len() as int) =~= data.coverage@);
        let ghost loaded = records_view(data.names@);
        self.data = NameMappingData { names: data.names, coverage };
        self.purge_bad_votes();
        Ok(())
    }

    /// All the data of the store, as it is saved.
    pub fn data(&self) -> (r: &NameMappingData)
        ensures
            records_view(r.names@) == self.records(),
            r.coverage@ == self.covered(),
    {
        &self.data
    }

    /// Where the store is saved.
    pub fn filepath(&self) -> (r: &str)
        ensures
            r@ == self.path(),
    {
        self.filepath.as_str()
    }

    /// The number of original names with a record.
    pub fn len(&self) -> (r: usize)
        ensures
            r == self.records().len(),
    {
        self.data.names.len()
    }

    /// Whether no original name has a record.
    pub fn is_empty(&self) -> (r: bool)
        ensures
            r == (self.records().len() == 0),
    {
        self.data.names.len() == 0
    }

    /// The covered chapters, ascending.
    pub fn coverage(&self) -> (r: &[u32])
        ensures
            r@ == self.covered(),
    {
        self.data.coverage.as_slice()
    }

    /// Each original with its record, in the order the store keeps them.
    pub fn names(&self) -> (r: &Vec<(String, NameInfo)>)
        ensures
            records_view(r@) == self.records(),
    {
        &self.data.names
    }

    /// The record of `original`, if it has one.
    pub fn get(&self, original: &str) -> (r: Option<&NameInfo>)
        ensures
            orig_index(self.records(), original@) < self.records().len() <==> r is Some,
            r is Some ==> r.unwrap()@ == self.records()[orig_index(self.records(), original@)].1,
    {
        let key = crate::text::owned(original);
        let i = self.find_record(&key);
        proof {
            lemma_orig_index_from(self.records(), original@, 0);
        }
        if i < self.data.names.len() {
            Some(&self.data.names[i].1)
        } else {
            None
        }
    }
}

/// `t` with every occurrence of `pat` replaced by `rep`, scanning from the
/// left without overlaps, as `str::replace` does for a non-empty pattern.
pub open spec fn replace_all(t: Seq<char>, pat: Seq<char>, rep: Seq<char>) -> Seq<char>
    decreases t.len(),
{
    if t.len() == 0 {
        t
    } else if pat.len() > 0 && pat.is_prefix_of(t) {
        rep + replace_all(t.skip(pat.len() as int), pat, rep)
    } else {
        seq![t[0]] + replace_all(t.drop_first(), pat, rep)
    }
}

/// `t` after each replacement of `ps` in turn.
pub open spec fn apply_pairs(t: Seq<char>, ps: Seq<(Seq<char>, Seq<char>)>) -> Seq<char>
    decreases ps.len(),
{
    if ps.len() == 0 {
        t
    } else {
        replace_all(apply_pairs(t, ps.drop_last()), ps.last().0, ps.last().1)
    }
}

/// `(original, best)` for each record with a best rendering and an original
/// of `l` characters, in record order.
pub open spec fn pairs_of_len(r: RecordSeq, l: int) -> Seq<(Seq<char>, Seq<char>)>
    decreases r.len(),
{
    if r.len() == 0 {
        Seq::empty()
    } else {
        let rest = pairs_of_len(r.drop_last(), l);
        if r.last().0.len() == l && r.last().1.best is Some {
            rest.push((r.last().0, r.last().1.best.unwrap()))
        } else {
            rest
        }
    }
}

/// The pairs whose original length lies in `lo..=hi`, longest first.
pub open spec fn pairs_down(r: RecordSeq, hi: int, lo: int) -> Seq<(Seq<char>, Seq<char>)>
    decreases hi + 1 - lo,
{
    if lo > hi || lo < 0 {
        Seq::empty()
    } else {
        pairs_down(r, hi, lo + 1) + pairs_of_len(r, lo)
    }
}

/// The length of the longest original among the first `n` records.
pub open spec fn longest_prefix(r: RecordSeq, n: int) -> nat
    decreases n,
{
    if n <= 0 {
        0
    } else {
        let m = longest_prefix(r, n - 1);
        if r[n - 1].0.len() > m {
            r[n - 1].0.len()
        } else {
            m
        }
    }
}

/// The order of replacement: longer originals first, equal lengths in the
/// order the store keeps the records.
pub open spec fn replacement_order(r: RecordSeq) -> Seq<(Seq<char>, Seq<char>)> {
    pairs_down(r, longest_prefix(r, r.len() as int) as int, 0)
}

proof fn lemma_pairs_of_len(r: RecordSeq, l: int)
    ensures
        forall|k: int| 0 <= k < pairs_of_len(r, l).len() ==> (#[trigger] pairs_of_len(r, l)[k]).0.len() == l,
        forall|k: int|
            0 <= k < r.len() && (#[trigger] r[k]).0.len() == l && r[k].1.best is Some
                ==> pairs_of_len(r, l).contains((r[k].0, r[k].1.best.unwrap())),
    decreases r.len(),
{
    if r.len() > 0 {
        let d = r.drop_last();
        lemma_pairs_of_len(d, l);
        let rest = pairs_of_len(d, l);
        let w = pairs_of_len(r, l);
        assert forall|k: int| 0 <= k < w.len() implies (#[trigger] w[k]).0.len() == l by {
            if k < rest.len() {
                assert(w[k] == rest[k]);
            }
        }
        assert forall|k: int|
            0 <= k < r.len() && (#[trigger] r[k]).0.len() == l && r[k].1.best is Some implies w.contains(
            (r[k].0, r[k].1.best.unwrap()),
        ) by {
            if k < d.len() {
                assert(d[k] == r[k]);
                let x = (r[k].0, r[k].1.best.unwrap());
                assert(rest.contains(x));
                let j = choose|j: int| 0 <= j < rest.len() && rest[j] == x;
                assert(w[j] == x);
            } else {
                assert(w[w.len() - 1] == (r[k].0, r[k].1.best.unwrap()));
            }
        }
    }
}

proof fn lemma_pairs_down(r: RecordSeq, hi: int, lo: int)
    requires
        0 <= lo,
    ensures
        forall|k: int| 0 <= k < pairs_down(r, hi, lo).len() ==> lo <= (#[trigger] pairs_down(r, hi, lo)[k]).0.len() <= hi,
        forall|i: int, j: int|
            0 <= i < j < pairs_down(r, hi, lo).len() ==> pairs_down(r, hi, lo)[i].0.len() >= pairs_down(r, hi, lo)[j].0.len(),
        forall|k: int|
            0 <= k < r.len() && lo <= (#[trigger] r[k]).0.len() <= hi && r[k].1.best is Some
                ==> pairs_down(r, hi, lo).contains((r[k].0, r[k].1.best.unwrap())),
    decreases hi + 1 - lo,
{
    if lo <= hi {
        lemma_pairs_down(r, hi, lo + 1);
        lemma_pairs_of_len(r, lo);
        let a = pairs_down(r, hi, lo + 1);
        let b = pairs_of_len(r, lo);
        let w = a + b;
        assert(w == pairs_down(r, hi, lo));
        assert forall|k: int| 0 <= k < w.len() implies lo <= (#[trigger] w[k]).0.len() <= hi by {
            if k < a.len() {
                assert(w[k] == a[k]);
            } else {
                assert(w[k] == b[k - a.len()]);
            }
        }
        assert forall|i: int, j: int| 0 <= i < j < w.len() implies w[i].0.len() >= w[j].0.len() by {
            if j < a.len() {
                assert(w[i] == a[i] && w[j] == a[j]);
            } else if i < a.len() {
                assert(w[i] == a[i] && w[j] == b[j - a.len()]);
            } else {
                assert(w[i] == b[i - a.len()] && w[j] == b[j - a.len()]);
            }
        }
        assert forall|k: int|
            0 <= k < r.len() && lo <= (#[trigger] r[k]).0.len() <= hi && r[k].1.best is Some implies w.contains(
            (r[k].0, r[k].1.best.unwrap()),
        ) by {
            let x = (r[k].0, r[k].1.best.unwrap());
            if r[k].0.len() == lo {
                assert(b.contains(x));
                let j = choose|j: int| 0 <= j < b.len() && b[j] == x;
                assert(w[a.len() + j] == x);
            } else {
                assert(a.contains(x));
                let j = choose|j: int| 0 <= j < a.len() && a[j] == x;
                assert(w[j] == x);
            }
        }
    }
}

proof fn lemma_longest_prefix(r: RecordSeq, n: int)
    requires
        0 <= n <= r.len(),
    ensures
        forall|k: int| 0 <= k < n ==> (#[trigger] r[k]).0.len() <= longest_prefix(r, n),
    decreases n,
{
    if n > 0 {
        lemma_longest_prefix(r, n - 1);
    }
}

/// The replacement order puts longer originals before shorter ones, and it
/// holds the pair `(original, best)` of every record that has a best.
pub proof fn lemma_replacement_order(r: RecordSeq)
    ensures
        forall|i: int, j: int|
            0 <= i < j < replacement_order(r).len() ==> replacement_order(r)[i].0.len() >= replacement_order(r)[j].0.len(),
        forall|k: int|
            0 <= k < r.len() && (#[trigger] r[k]).1.best is Some ==> replacement_order(r).contains(
                (r[k].0, r[k].1.best.unwrap()),
            ),
{
    lemma_longest_prefix(r, r.len() as int);
    lemma_pairs_down(r, longest_prefix(r, r.len() as int) as int, 0);
}

proof fn lemma_replace_step(t: Seq<char>, pat: Seq<char>, rep: Seq<char>, i: int)
    requires
        0 <= i < t.len(),
    ensures
        pat.len() > 0 && occurs_at(t, pat, i) ==> replace_all(t.skip(i), pat, rep) == rep + replace_all(
            t.skip(i + pat.len()),
            pat,
            rep,
        ),
        !(pat.len() > 0 && occurs_at(t, pat, i)) ==> replace_all(t.skip(i), pat, rep) == seq![t[i]]
            + replace_all(t.skip(i + 1), pat, rep),
{
    let s = t.skip(i);
    assert(s.drop_first() =~= t.skip(i + 1));
    assert(s[0] == t[i]);
    if pat.len() <= s.len() {
        assert(s.take(pat.len() as int) =~= t.subrange(i, i + pat.len()));
        assert(s.skip(pat.len() as int) =~= t.skip(i + pat.len()));
    }
    if pat.len() > 0 && occurs_at(t, pat, i) {
        assert(pat.is_prefix_of(s));
    }
    if pat.len() > 0 && pat.is_prefix_of(s) {
        assert(occurs_at(t, pat, i));
    }
}

/// `t` with every occurrence of `pat` replaced by `rep`.
pub fn replace_all_exec(t: &Vec<char>, pat: &Vec<char>, rep: &Vec<char>) -> (r: Vec<char>)
    ensures
        r@ == replace_all(t@, pat@, rep@),
{
    let mut out: Vec<char> = Vec::new();
    let mut i: usize = 0;
    assert(t@.skip(0) =~= t@);
    while i < t.len()
        invariant
            i <= t.len(),
            out@ + replace_all(t@.skip(i as int), pat@, rep@) == replace_all(t@, pat@, rep@),
        decreases t.len() - i,
    {
        proof {
            lemma_replace_step(t@, pat@, rep@, i as int);
        }
        if pat.len() > 0 && crate::text::occurs_at_exec(t, pat, i) {
            let ghost before = out@;
            crate::text::append_chars(&mut out, rep);
            assert(out@ + replace_all(t@.skip(i + pat.len()), pat@, rep@) =~= before + (rep@
                + replace_all(t@.skip(i + pat.len()), pat@, rep@)));
            i = i + pat.len();
        } else {
            let ghost before = out@;
            out.push(t[i]);
            assert(out@ + replace_all(t@.skip(i + 1), pat@, rep@) =~= before + (seq![t@[i as int]]
                + replace_all(t@.skip(i + 1), pat@, rep@)));
            i = i + 1;
        }
    }
    assert(t@.skip(t@.len() as int) =~= Seq::<char>::empty());
    assert(out@ + Seq::<char>::empty() =~= out@);
    out
}

/// The pairs of `ps` as plain sequences.
pub open spec fn pairs_view(ps: Seq<(Vec<char>, Vec<char>)>) -> Seq<(Seq<char>, Seq<char>)> {
    ps.map_values(|p: (Vec<char>, Vec<char>)| (p.0@, p.1@))
}

impl NameMappingStore {
    fn longest_original(&self) -> (m: usize)
        ensures
            m == longest_prefix(self.records(), self.records().len() as int),
    {
        let ghost r = self.records();
        let mut m: usize = 0;
        let mut i: usize = 0;
        while i < self.data.names.len()
            invariant
                i <= self.data.names.len(),
                r == self.records(),
                m == longest_prefix(r, i as int),
            decreases self.data.names.len() - i,
        {
            let n = chars_of(self.data.names[i].0.as_str()).len();
            if n > m {
                m = n;
            }
            i = i + 1;
        }
        m
    }

    fn replacement_pairs(&self) -> (ps: Vec<(Vec<char>, Vec<char>)>)
        ensures
            pairs_view(ps@) == replacement_order(self.records()),
    {
        let ghost r = self.records();
        let hi = self.longest_original();
        let mut ps: Vec<(Vec<char>, Vec<char>)> = Vec::new();
        let mut l: usize = hi;
        loop
            invariant_except_break
                l <= hi,
                r == self.records(),
                hi == longest_prefix(r, r.len() as int),
                pairs_view(ps@) == pairs_down(r, hi as int, l + 1),
            ensures
                r == self.records(),
                pairs_view(ps@) == pairs_down(r, hi as int, 0),
            decreases l,
        {
            let mut k: usize = 0;
            assert(r.take(0) =~= Seq::<(Seq<char>, InfoView)>::empty());
            while k < self.data.names.len()
                invariant
                    k <= self.data.names.len(),
                    l <= hi,
                    r == self.records(),
                    pairs_view(ps@) == pairs_down(r, hi as int, l + 1) + pairs_of_len(r.take(k as int), l as int),
                decreases self.data.names.len() - k,
            {
                assert(r.take(k + 1).drop_last() =~= r.take(k as int));
                let o = chars_of(self.data.names[k].0.as_str());
                if o.len() == l {
                    match &self.data.names[k].1.english {
                        Some(e) => {
                            let ev = chars_of(e.as_str());
                            let ghost before = pairs_view(ps@);
                            ps.push((o, ev));
                            assert(pairs_view(ps@) =~= before.push((r[k as int].0, r[k as int].1.best.unwrap())));
                        },
                        None => {},
                    }
                }
                k = k + 1;
            }
            assert(r.take(r.len() as int) =~= r);
            if l == 0 {
                break;
            }
            l = l - 1;
        }
        ps
    }

    /// `text` with each original name replaced by its best rendering, longer
    /// originals first, so that a longer name is replaced whole before any
    /// shorter name inside it.
    pub fn apply_to_text(&self, text: &str) -> (r: String)
        ensures
            r@ == apply_pairs(text@, replacement_order(self.records())),
    {
        let ps = self.replacement_pairs();
        let mut cur = chars_of(text);
        let mut i: usize = 0;
        assert(pairs_view(ps@).take(0) =~= Seq::<(Seq<char>, Seq<char>)>::empty());
        while i < ps.len()
            invariant
                i <= ps.len(),
                pairs_view(ps@) == replacement_order(self.records()),
                cur@ == apply_pairs(text@, pairs_view(ps@).take(i as int)),
            decreases ps.len() - i,
        {
            cur = replace_all_exec(&cur, &ps[i].0, &ps[i].1);
            assert(pairs_view(ps@).take(i + 1).drop_last() =~= pairs_view(ps@).take(i as int));
            i = i + 1;
        }
        assert(pairs_view(ps@).take(ps.len() as int) =~= pairs_view(ps@));
        crate::text::string_of(&cur)
    }
}

/// Candidates that each break a rule are never recorded: recording only
/// such candidates leaves the records exactly as they were.
pub proof fn lemma_rejected_entries_ignored(r: RecordSeq, es: Seq<NameEntry>)
    requires
        forall|k: int| 0 <= k < es.len() ==> !entry_accepted(#[trigger] es[k].original@, es[k].english@),
    ensures
        record_all(r, es) == r,
    decreases es.len(),
{
    if es.len() > 0 {
        assert forall|k: int| 0 <= k < es.drop_last().len() implies !entry_accepted(
            #[trigger] es.drop_last()[k].original@,
            es.drop_last()[k].english@,
        ) by {
            assert(es.drop_last()[k] == es[k]);
        }
        lemma_rejected_entries_ignored(r, es.drop_last());
        assert(!entry_accepted(es[es.len() - 1].original@, es[es.len() - 1].english@));
    }
}

impl NameMappingStore {
    /// Loading a store's own data reproduces it: the data of `data()` have no
    /// original or rendering twice (so `replace_data` accepts them), and
    /// `replace_data` on them gives back the same records, with the same
    /// votes, best renderings and counts, and the same coverage. Data that
    /// hold the same votes in another order give the same best renderings
    /// (see `lemma_best_rule_order_free`).
    pub proof fn lemma_save_reload(&self)
        requires
            self.wf(),
        ensures
            records_unique(self.records()),
            purge_records(self.records()) == self.records(),
            insert_all(Seq::empty(), self.covered()) == self.covered(),
    {
        lemma_reload_round_trip(self.records(), self.covered());
    }
}

/// Whether no character of `a` occurs in `b`.
pub open spec fn shares_no_char(a: Seq<char>, b: Seq<char>) -> bool {
    forall|i: int, j: int| 0 <= i < a.len() && 0 <= j < b.len() ==> a[i] != b[j]
}

proof fn lemma_skip_occurs(t: Seq<char>, q: Seq<char>, k: int, i: int)
    requires
        0 <= k <= t.len(),
        occurs_at(t.skip(k), q, i),
    ensures
        occurs_at(t, q, k + i),
{
    assert(t.subrange(k + i, k + i + q.len()) =~= t.skip(k).subrange(i, i + q.len()));
}

/// A prefix of a replacement result made of characters not in `rep` is a
/// prefix of the text replaced.
proof fn lemma_plain_prefix(t: Seq<char>, pat: Seq<char>, rep: Seq<char>, s: Seq<char>)
    requires
        pat.len() > 0,
        rep.len() > 0,
        shares_no_char(s, rep),
        s.is_prefix_of(replace_all(t, pat, rep)),
    ensures
        s.is_prefix_of(t),
    decreases t.len(),
{
    let res = replace_all(t, pat, rep);
    if s.len() > 0 {
        if t.len() == 0 {
        } else if pat.is_prefix_of(t) {
            assert(res[0] == rep[0]);
            assert(s[0] == res[0]);
        } else {
            let r = replace_all(t.drop_first(), pat, rep);
            assert(res == seq![t[0]] + r);
            let s2 = s.drop_first();
            assert(shares_no_char(s2, rep)) by {
                assert forall|i: int, j: int| 0 <= i < s2.len() && 0 <= j < rep.len() implies s2[i] != rep[j] by {
                    assert(s2[i] == s[i + 1]);
                }
            }
            assert(s2.is_prefix_of(r)) by {
                assert(s2 =~= r.take(s2.len() as int)) by {
                    assert forall|i: int| 0 <= i < s2.len() implies s2[i] == r.take(s2.len() as int)[i] by {
                        assert(s[i + 1] == res[i + 1]);
                    }
                }
            }
            lemma_plain_prefix(t.drop_first(), pat, rep, s2);
            assert(s =~= t.take(s.len() as int)) by {
                assert forall|i: int| 0 <= i < s.len() implies s[i] == t.take(s.len() as int)[i] by {
                    if i > 0 {
                        assert(s2[i - 1] == t.drop_first()[i - 1]);
                    } else {
                        assert(s[0] == res[0]);
                    }
                }
            }
        }
    } else {
        assert(s =~= t.take(0));
    }
}

/// Replacement leaves no occurrence of its pattern, when the replacement
/// shares no character with the pattern.
proof fn lemma_replace_removes(t: Seq<char>, pat: Seq<char>, rep: Seq<char>)
    requires
        pat.len() > 0,
        rep.len() > 0,
        shares_no_char(pat, rep),
    ensures
        !crate::text::contains_seq(replace_all(t, pat, rep), pat),
    decreases t.len(),
{
    let res = replace_all(t, pat, rep);
    if t.len() > 0 {
        if pat.is_prefix_of(t) {
            let r = replace_all(t.skip(pat.len() as int), pat, rep);
            lemma_replace_removes(t.skip(pat.len() as int), pat, rep);
            assert forall|i: int| !occurs_at(res, pat, i) by {
                if occurs_at(res, pat, i) {
                    if i < rep.len() {
                        assert(res.subrange(i, i + pat.len())[0] == rep[i]);
                    } else {
                        assert(r.subrange(i - rep.len(), i - rep.len() + pat.len()) =~= res.subrange(i, i + pat.len()));
                        assert(occurs_at(r, pat, i - rep.len()));
                    }
                }
            }
        } else {
            let r = replace_all(t.drop_first(), pat, rep);
            lemma_replace_removes(t.drop_first(), pat, rep);
            assert forall|i: int| !occurs_at(res, pat, i) by {
                if occurs_at(res, pat, i) {
                    if i == 0 {
                        assert(pat =~= res.take(pat.len() as int));
                        lemma_plain_prefix(t, pat, rep, pat);
                    } else {
                        assert(r.subrange(i - 1, i - 1 + pat.len()) =~= res.subrange(i, i + pat.len()));
                        assert(occurs_at(r, pat, i - 1));
                    }
                }
            }
        }
    }
}

/// Replacement brings in no occurrence of `q` that was not there, when the
/// replacement shares no character with `q`.
proof fn lemma_replace_keeps_absent(t: Seq<char>, pat: Seq<char>, rep: Seq<char>, q: Seq<char>)
    requires
        pat.len() > 0,
        rep.len() > 0,
        q.len() > 0,
        shares_no_char(q, rep),
        !crate::text::contains_seq(t, q),
    ensures
        !crate::text::contains_seq(replace_all(t, pat, rep), q),
    decreases t.len(),
{
    let res = replace_all(t, pat, rep);
    if t.len() > 0 {
        if pat.is_prefix_of(t) {
            let t2 = t.skip(pat.len() as int);
            assert(!crate::text::contains_seq(t2, q)) by {
                if crate::text::contains_seq(t2, q) {
                    let i = choose|i: int| occurs_at(t2, q, i);
                    lemma_skip_occurs(t, q, pat.len() as int, i);
                }
            }
            let r = replace_all(t2, pat, rep);
            lemma_replace_keeps_absent(t2, pat, rep, q);
            assert forall|i: int| !occurs_at(res, q, i) by {
                if occurs_at(res, q, i) {
                    if i < rep.len() {
                        assert(res.subrange(i, i + q.len())[0] == rep[i]);
                    } else {
                        assert(r.subrange(i - rep.len(), i - rep.len() + q.len()) =~= res.subrange(i, i + q.len()));
                        assert(occurs_at(r, q, i - rep.len()));
                    }
                }
            }
        } else {
            let t2 = t.drop_first();
            assert(t2 =~= t.skip(1));
            assert(!crate::text::contains_seq(t2, q)) by {
                if crate::text::contains_seq(t2, q) {
                    let i = choose|i: int| occurs_at(t2, q, i);
                    lemma_skip_occurs(t, q, 1, i);
                }
            }
            let r = replace_all(t2, pat, rep);
            lemma_replace_keeps_absent(t2, pat, rep, q);
            assert forall|i: int| !occurs_at(res, q, i) by {
                if occurs_at(res, q, i) {
                    if i == 0 {
                        assert(q =~= res.take(q.len() as int));
                        lemma_plain_prefix(t, pat, rep, q);
                        assert(t.subrange(0, q.len() as int) =~= q);
                        assert(occurs_at(t, q, 0));
                    } else {
                        assert(r.subrange(i - 1, i - 1 + q.len()) =~= res.subrange(i, i + q.len()));
                        assert(occurs_at(r, q, i - 1));
                    }
                }
            }
        }
    }
}

/// After replacements whose renderings share no character with any of their
/// patterns, no pattern is left.
proof fn lemma_apply_pairs_removes(t: Seq<char>, ps: Seq<(Seq<char>, Seq<char>)>)
    requires
        forall|k: int| 0 <= k < ps.len() ==> (#[trigger] ps[k]).0.len() > 0 && ps[k].1.len() > 0,
        forall|k: int, j: int| 0 <= k < ps.len() && 0 <= j < ps.len() ==> shares_no_char(ps[j].0, ps[k].1),
    ensures
        forall|k: int| 0 <= k < ps.len() ==> !crate::text::contains_seq(apply_pairs(t, ps), #[trigger] ps[k].0),
    decreases ps.len(),
{
    if ps.len() > 0 {
        let d = ps.drop_last();
        assert forall|k: int| 0 <= k < d.len() implies (#[trigger] d[k]).0.len() > 0 && d[k].1.len() > 0 by {
            assert(d[k] == ps[k]);
        }
        assert forall|k: int, j: int| 0 <= k < d.len() && 0 <= j < d.len() implies shares_no_char(d[j].0, d[k].1) by {
            assert(d[k] == ps[k] && d[j] == ps[j]);
        }
        lemma_apply_pairs_removes(t, d);
        let a = apply_pairs(t, d);
        let last = ps[ps.len() - 1];
        assert(ps.last() == last);
        assert(last.0.len() > 0 && last.1.len() > 0);
        assert forall|k: int| 0 <= k < ps.len() implies !crate::text::contains_seq(apply_pairs(t, ps), #[trigger] ps[k].0) by {
            assert(shares_no_char(ps[k].0, last.1));
            if k == ps.len() - 1 {
                lemma_replace_removes(a, last.0, last.1);
            } else {
                assert(d[k] == ps[k]);
                assert(ps[k].0.len() > 0);
                lemma_replace_keeps_absent(a, last.0, last.1, ps[k].0);
            }
        }
    }
}

/// Whether `p` is `(original, best)` of some record with a best rendering.
pub open spec fn pair_of_record(r: RecordSeq, p: (Seq<char>, Seq<char>)) -> bool {
    exists|j: int| 0 <= j < r.len() && r[j].1.best is Some && p == (r[j].0, r[j].1.best.unwrap())
}

/// Each pair of `pairs_of_len` comes from a record with a best rendering.
proof fn lemma_pairs_of_len_from(r: RecordSeq, l: int)
    ensures
        forall|k: int| 0 <= k < pairs_of_len(r, l).len() ==> pair_of_record(r, #[trigger] pairs_of_len(r, l)[k]),
    decreases r.len(),
{
    if r.len() > 0 {
        let d = r.drop_last();
        lemma_pairs_of_len_from(d, l);
        let rest = pairs_of_len(d, l);
        let w = pairs_of_len(r, l);
        assert forall|k: int| 0 <= k < w.len() implies pair_of_record(r, #[trigger] w[k]) by {
            if k < rest.len() {
                assert(w[k] == rest[k]);
                assert(pair_of_record(d, rest[k]));
                let j = choose|j: int| 0 <= j < d.len() && d[j].1.best is Some && rest[k] == (d[j].0, d[j].1.best.unwrap());
                assert(r[j] == d[j]);
            } else {
                assert(r[r.len() - 1] == r.last());
            }
        }
    }
}

/// Each pair of `pairs_down` comes from a record with a best rendering.
proof fn lemma_pairs_down_from(r: RecordSeq, hi: int, lo: int)
    requires
        0 <= lo,
    ensures
        forall|k: int| 0 <= k < pairs_down(r, hi, lo).len() ==> pair_of_record(r, #[trigger] pairs_down(r, hi, lo)[k]),
    decreases hi + 1 - lo,
{
    if lo <= hi {
        lemma_pairs_down_from(r, hi, lo + 1);
        lemma_pairs_of_len_from(r, lo);
        let a = pairs_down(r, hi, lo + 1);
        let b = pairs_of_len(r, lo);
        let w = a + b;
        assert(w == pairs_down(r, hi, lo));
        assert forall|k: int| 0 <= k < w.len() implies pair_of_record(r, #[trigger] w[k]) by {
            if k < a.len() {
                assert(w[k] == a[k]);
            } else {
                assert(w[k] == b[k - a.len()]);
            }
        }
    }
}

/// The best rendering of a clean record is one of its voted renderings, so
/// it passes the rules and is not empty.
proof fn lemma_best_nonempty(x: (Seq<char>, InfoView))
    requires
        record_clean(x),
        x.1.best is Some,
    ensures
        x.1.best.unwrap().len() > 0,
{
    let v = x.1.votes;
    lemma_filter_votes_accepted(v);
    lemma_best_rule_index(v);
    match x.1.best {
        Some(b) => {
            lemma_key_index_from(filter_votes(v), b, 0);
            let k = least_with_count(v, max_count(v), v.len() as int);
            assert(!english_rejected(filter_votes(v)[k].0));
            let i = key_index(filter_votes(v), b);
            if i < v.len() {
                assert(!english_rejected(filter_votes(v)[i].0));
            }
        },
        None => {},
    }
}

impl NameMappingStore {
    /// Every occurrence of a recorded original is replaced: when no best
    /// rendering shares a character with any recorded original (as with
    /// romanised renderings of Japanese names), the text that
    /// `apply_to_text` returns holds no original that has a best rendering.
    pub proof fn lemma_originals_replaced(&self, text: Seq<char>)
        requires
            self.wf(),
            forall|i: int, j: int|
                0 <= i < self.records().len() && 0 <= j < self.records().len()
                    && self.records()[i].1.best is Some ==> shares_no_char(
                    self.records()[j].0,
                    self.records()[i].1.best.unwrap(),
                ),
        ensures
            forall|k: int|
                0 <= k < self.records().len() && (#[trigger] self.records()[k]).1.best is Some
                    ==> !crate::text::contains_seq(
                    apply_pairs(text, replacement_order(self.records())),
                    self.records()[k].0,
                ),
    {
        let r = self.records();
        let ps = replacement_order(r);
        lemma_pairs_down_from(r, longest_prefix(r, r.len() as int) as int, 0);
        lemma_replacement_order(r);
        assert forall|k: int| 0 <= k < ps.len() implies (#[trigger] ps[k]).0.len() > 0 && ps[k].1.len() > 0 by {
            assert(pair_of_record(r, ps[k]));
            let j = choose|j: int| 0 <= j < r.len() && r[j].1.best is Some && ps[k] == (r[j].0, r[j].1.best.unwrap());
            assert(record_clean(r[j]));
            lemma_best_nonempty(r[j]);
        }
        assert forall|k: int, j: int| 0 <= k < ps.len() && 0 <= j < ps.len() implies shares_no_char(ps[j].0, ps[k].1) by {
            assert(pair_of_record(r, ps[k]));
            assert(pair_of_record(r, ps[j]));
            let a = choose|a: int| 0 <= a < r.len() && r[a].1.best is Some && ps[k] == (r[a].0, r[a].1.best.unwrap());
            let b = choose|b: int| 0 <= b < r.len() && r[b].1.best is Some && ps[j] == (r[b].0, r[b].1.best.unwrap());
            assert(shares_no_char(r[b].0, r[a].1.best.unwrap()));
        }
        lemma_apply_pairs_removes(text, ps);
        assert forall|k: int|
            0 <= k < r.len() && (#[trigger] r[k]).1.best is Some implies !crate::text::contains_seq(
            apply_pairs(text, ps),
            r[k].0,
        ) by {
            let x = (r[k].0, r[k].1.best.unwrap());
            assert(ps.contains(x));
            let i = choose|i: int| 0 <= i < ps.len() && ps[i] == x;
            assert(ps[i].0 == r[k].0);
        }
    }
}

proof fn lemma_replace_absent(t: Seq<char>, pat: Seq<char>, rep: Seq<char>)
    requires
        pat.len() > 0,
        !crate::text::contains_seq(t, pat),
    ensures
        replace_all(t, pat, rep) == t,
    decreases t.len(),
{
    if t.len() > 0 {
        if pat.is_prefix_of(t) {
            assert(t.subrange(0, pat.len() as int) =~= t.take(pat.len() as int));
            assert(occurs_at(t, pat, 0));
        }
        let t2 = t.drop_first();
        assert(t2 =~= t.skip(1));
        assert(!crate::text::contains_seq(t2, pat)) by {
            if crate::text::contains_seq(t2, pat) {
                let i = choose|i: int| occurs_at(t2, pat, i);
                lemma_skip_occurs(t, pat, 1, i);
            }
        }
        lemma_replace_absent(t2, pat, rep);
        assert(seq![t[0]] + t2 =~= t);
    }
}

proof fn lemma_replace_whole(pat: Seq<char>, rep: Seq<char>)
    requires
        pat.len() > 0,
    ensures
        replace_all(pat, pat, rep) == rep,
{
    assert(pat.take(pat.len() as int) =~= pat);
    assert(pat.is_prefix_of(pat));
    let e = pat.skip(pat.len() as int);
    assert(e =~= Seq::<char>::empty());
    assert(replace_all(e, pat, rep) == e);
    assert(replace_all(pat, pat, rep) == rep + replace_all(e, pat, rep));
    assert(rep + e =~= rep);
}

/// The first index at or after `i` of a pair whose original is `o`, or `ps.len()`.
pub open spec fn pair_index_from(ps: Seq<(Seq<char>, Seq<char>)>, o: Seq<char>, i: int) -> int
    decreases ps.len() - i,
{
    if i < 0 || i >= ps.len() {
        ps.len() as int
    } else if ps[i].0 == o {
        i
    } else {
        pair_index_from(ps, o, i + 1)
    }
}

proof fn lemma_pair_index_from(ps: Seq<(Seq<char>, Seq<char>)>, o: Seq<char>, i: int)
    requires
        0 <= i <= ps.len(),
    ensures
        i <= pair_index_from(ps, o, i) <= ps.len(),
        pair_index_from(ps, o, i) < ps.len() ==> ps[pair_index_from(ps, o, i)].0 == o,
        forall|j: int| i <= j < pair_index_from(ps, o, i) ==> ps[j].0 != o,
        forall|j: int| i <= j < ps.len() && ps[j].0 == o ==> pair_index_from(ps, o, i) <= j,
    decreases ps.len() - i,
{
    if i < ps.len() && ps[i].0 != o {
        lemma_pair_index_from(ps, o, i + 1);
    }
}

proof fn lemma_whole_prefix(ps: Seq<(Seq<char>, Seq<char>)>, o1: Seq<char>, b1: Seq<char>, idx: int, n: int)
    requires
        0 <= idx < ps.len(),
        0 <= n <= ps.len(),
        o1.len() > 0,
        ps[idx] == (o1, b1),
        forall|m: int| 0 <= m < ps.len() ==> (#[trigger] ps[m]).0.len() > 0 && (m < idx ==> ps[m].0 != o1
            && ps[m].0.len() >= o1.len()) && (m > idx ==> shares_no_char(ps[m].0, b1)),
    ensures
        apply_pairs(o1, ps.take(n)) == (if n <= idx {
            o1
        } else {
            b1
        }),
    decreases n,
{
    if n == 0 {
        assert(ps.take(0) =~= Seq::<(Seq<char>, Seq<char>)>::empty());
    } else {
        let m = n - 1;
        lemma_whole_prefix(ps, o1, b1, idx, m);
        assert(ps.take(n).drop_last() =~= ps.take(m));
        assert(ps.take(n).last() == ps[m]);
        let q = ps[m].0;
        assert(q.len() > 0);
        if m < idx {
            assert(!crate::text::contains_seq(o1, q)) by {
                if crate::text::contains_seq(o1, q) {
                    let i = choose|i: int| occurs_at(o1, q, i);
                    assert(o1.subrange(i, i + q.len()) =~= o1);
                }
            }
            lemma_replace_absent(o1, q, ps[m].1);
        } else if m == idx {
            lemma_replace_whole(o1, b1);
        } else {
            assert(shares_no_char(q, b1));
            assert(!crate::text::contains_seq(b1, q)) by {
                if crate::text::contains_seq(b1, q) {
                    let i = choose|i: int| occurs_at(b1, q, i);
                    assert(b1.subrange(i, i + q.len())[0] == q[0]);
                }
            }
            lemma_replace_absent(b1, q, ps[m].1);
        }
    }
}

impl NameMappingStore {
    /// A longer name is replaced whole: when no best rendering shares a
    /// character with any recorded original, a text that is exactly a
    /// recorded original with a best rendering becomes that rendering, so no
    /// shorter original inside it is replaced on its own.
    pub proof fn lemma_longer_name_replaced_whole(&self, k: int)
        requires
            self.wf(),
            0 <= k < self.records().len(),
            self.records()[k].1.best is Some,
            forall|i: int, j: int|
                0 <= i < self.records().len() && 0 <= j < self.records().len()
                    && self.records()[i].1.best is Some ==> shares_no_char(
                    self.records()[j].0,
                    self.records()[i].1.best.unwrap(),
                ),
        ensures
            apply_pairs(self.records()[k].0, replacement_order(self.records()))
                == self.records()[k].1.best.unwrap(),
    {
        let r = self.records();
        let ps = replacement_order(r);
        let o1 = r[k].0;
        let b1 = r[k].1.best.unwrap();
        lemma_pairs_down_from(r, longest_prefix(r, r.len() as int) as int, 0);
        lemma_replacement_order(r);
        assert(record_clean(r[k]));
        assert(o1.len() > 0);
        let x = (o1, b1);
        assert(ps.contains(x));
        let w = choose|w: int| 0 <= w < ps.len() && ps[w] == x;
        lemma_pair_index_from(ps, o1, 0);
        let idx = pair_index_from(ps, o1, 0);
        assert(idx <= w);
        assert(pair_of_record(r, ps[idx]));
        let jj = choose|jj: int| 0 <= jj < r.len() && r[jj].1.best is Some && ps[idx] == (r[jj].0, r[jj].1.best.unwrap());
        assert(jj == k) by {
            if jj != k {
                if jj < k {
                    assert(r[jj].0 != r[k].0);
                } else {
                    assert(r[k].0 != r[jj].0);
                }
            }
        }
        assert forall|m: int| 0 <= m < ps.len() implies (#[trigger] ps[m]).0.len() > 0 && (m < idx ==> ps[m].0 != o1 && ps[m].0.len() >= o1.len()) && (m > idx ==> shares_no_char(ps[m].0, b1)) by {
            assert(pair_of_record(r, ps[m]));
            let j = choose|j: int| 0 <= j < r.len() && r[j].1.best is Some && ps[m] == (r[j].0, r[j].1.best.unwrap());
            assert(record_clean(r[j]));
            assert(shares_no_char(r[j].0, b1));
            if m < idx {
                assert(ps[m].0.len() >= ps[idx].0.len());
            }
        }
        lemma_whole_prefix(ps, o1, b1, idx, ps.len() as int);
        assert(ps.take(ps.len() as int) =~= ps);
    }
}

} // verus!
