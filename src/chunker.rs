//! Splitting long text into bounded chunks along line boundaries, and, for
//! chunks that stay too long, along whitespace.
//!
//! Sizes count characters. A unit (a line, or a word in the second pass) is
//! never cut: a unit longer than the limit becomes a chunk of its own.
use vstd::prelude::*;

use crate::text::{append_chars, chars_of, is_whitespace, is_ws, string_of};

verus! {

/// The pieces of `s` between occurrences of `sep` (one piece more than there
/// are separators).
pub open spec fn split_on(s: Seq<char>, sep: char) -> Seq<Seq<char>>
    decreases s.len(),
{
    if s.len() == 0 {
        seq![Seq::empty()]
    } else {
        let p = split_on(s.drop_last(), sep);
        if s.last() == sep {
            p.push(Seq::empty())
        } else {
            p.update(p.len() - 1, p.last().push(s.last()))
        }
    }
}

/// The lines of `s`: the pieces between newlines, without the empty piece
/// after a final newline (so empty text has no lines).
pub open spec fn lines(s: Seq<char>) -> Seq<Seq<char>> {
    let p = split_on(s, '\n');
    if p.last().len() == 0 {
        p.drop_last()
    } else {
        p
    }
}

/// Completed words of `s` and the run of non-whitespace at its end.
pub open spec fn words_acc(s: Seq<char>) -> (Seq<Seq<char>>, Seq<char>)
    decreases s.len(),
{
    if s.len() == 0 {
        (Seq::empty(), Seq::empty())
    } else {
        let (w, cur) = words_acc(s.drop_last());
        if is_ws(s.last()) {
            if cur.len() > 0 {
                (w.push(cur), Seq::empty())
            } else {
                (w, Seq::empty())
            }
        } else {
            (w, cur.push(s.last()))
        }
    }
}

/// The words of `s`: its maximal runs of non-whitespace characters.
pub open spec fn words(s: Seq<char>) -> Seq<Seq<char>> {
    let (w, cur) = words_acc(s);
    if cur.len() > 0 {
        w.push(cur)
    } else {
        w
    }
}

/// The parts joined with `sep` between neighbours.
pub open spec fn join(p: Seq<Seq<char>>, sep: char) -> Seq<char>
    decreases p.len(),
{
    if p.len() == 0 {
        Seq::empty()
    } else if p.len() == 1 {
        p[0]
    } else {
        join(p.drop_last(), sep).push(sep) + p.last()
    }
}

/// The size of the units of `g` joined with one separator between neighbours.
pub open spec fn group_size(g: Seq<Seq<char>>) -> int
    decreases g.len(),
{
    if g.len() == 0 {
        0
    } else if g.len() == 1 {
        g[0].len() as int
    } else {
        group_size(g.drop_last()) + 1 + g.last().len()
    }
}

/// The groups, one after another.
pub open spec fn concat(gs: Seq<Seq<Seq<char>>>) -> Seq<Seq<char>>
    decreases gs.len(),
{
    if gs.len() == 0 {
        Seq::empty()
    } else {
        concat(gs.drop_last()) + gs.last()
    }
}

/// `gs` is the greedy grouping of `units` under limit `max`: the groups hold
/// the units in order, none is empty, each fits the limit or is one unit, and
/// none could have taken the first unit of the next one.
pub open spec fn greedy_grouping(units: Seq<Seq<char>>, gs: Seq<Seq<Seq<char>>>, max: int) -> bool {
    &&& concat(gs) == units
    &&& forall|k: int| 0 <= k < gs.len() ==> (#[trigger] gs[k]).len() > 0
    &&& forall|k: int| 0 <= k < gs.len() ==> group_size(#[trigger] gs[k]) <= max || gs[k].len() == 1
    &&& forall|k: int|
        0 <= k < gs.len() - 1 ==> group_size(#[trigger] gs[k].push(gs[k + 1][0])) > max
}

/// The views of a vector of character vectors.
pub open spec fn views(v: Seq<Vec<char>>) -> Seq<Seq<char>> {
    v.map_values(|x: Vec<char>| x@)
}

/// The views of a vector of strings.
pub open spec fn string_views(v: Seq<String>) -> Seq<Seq<char>> {
    v.map_values(|x: String| x@)
}

/// Splitting always gives at least one piece.
pub proof fn lemma_split_on_nonempty(s: Seq<char>, sep: char)
    ensures
        split_on(s, sep).len() >= 1,
    decreases s.len(),
{
    if s.len() > 0 {
        lemma_split_on_nonempty(s.drop_last(), sep);
    }
}

proof fn lemma_group_size(g: Seq<Seq<char>>, sep: char)
    ensures
        join(g, sep).len() == group_size(g),
    decreases g.len(),
{
    if g.len() > 1 {
        lemma_group_size(g.drop_last(), sep);
    }
}

/// Splits `s` at every `sep`.
pub fn split_on_exec(s: &Vec<char>, sep: char) -> (r: Vec<Vec<char>>)
    ensures
        views(r@) == split_on(s@, sep),
{
    let mut done: Vec<Vec<char>> = Vec::new();
    let mut cur: Vec<char> = Vec::new();
    let mut i: usize = 0;
    assert(s@.take(0) =~= Seq::<char>::empty());
    assert(views(done@).push(cur@) =~= split_on(s@.take(0), sep));
    while i < s.len()
        invariant
            i <= s.len(),
            views(done@).push(cur@) == split_on(s@.take(i as int), sep),
        decreases s.len() - i,
    {
        assert(s@.take(i + 1).drop_last() =~= s@.take(i as int));
        let ghost before = views(done@).push(cur@);
        if s[i] == sep {
            done.push(cur);
            cur = Vec::new();
            assert(views(done@).push(cur@) =~= before.push(Seq::empty()));
        } else {
            cur.push(s[i]);
            assert(views(done@).push(cur@) =~= before.update(before.len() - 1, before.last().push(s@[i as int])));
        }
        i = i + 1;
    }
    assert(s@.take(s@.len() as int) =~= s@);
    done.push(cur);
    done
}

/// The lines of `s`.
pub fn lines_exec(s: &Vec<char>) -> (r: Vec<Vec<char>>)
    ensures
        views(r@) == lines(s@),
{
    let mut p = split_on_exec(s, '\n');
    proof {
        lemma_split_on_nonempty(s@, '\n');
    }
    if p[p.len() - 1].len() == 0 {
        p.pop();
        assert(views(p@) =~= split_on(s@, '\n').drop_last());
    }
    p
}

/// The words of `s`.
pub fn words_exec(s: &Vec<char>) -> (r: Vec<Vec<char>>)
    ensures
        views(r@) == words(s@),
{
    let mut done: Vec<Vec<char>> = Vec::new();
    let mut cur: Vec<char> = Vec::new();
    let mut i: usize = 0;
    assert(s@.take(0) =~= Seq::<char>::empty());
    assert(views(done@) =~= Seq::<Seq<char>>::empty());
    while i < s.len()
        invariant
            i <= s.len(),
            (views(done@), cur@) == words_acc(s@.take(i as int)),
        decreases s.len() - i,
    {
        assert(s@.take(i + 1).drop_last() =~= s@.take(i as int));
        let ghost before = views(done@);
        if is_whitespace(s[i]) {
            if cur.len() > 0 {
                let ghost c = cur@;
                done.push(cur);
                assert(views(done@) =~= before.push(c));
            }
            cur = Vec::new();
        } else {
            cur.push(s[i]);
        }
        i = i + 1;
    }
    assert(s@.take(s@.len() as int) =~= s@);
    if cur.len() > 0 {
        let ghost before = views(done@);
        let ghost c = cur@;
        done.push(cur);
        assert(views(done@) =~= before.push(c));
    }
    done
}

proof fn lemma_concat_push(gs: Seq<Seq<Seq<char>>>, g: Seq<Seq<char>>)
    ensures
        concat(gs.push(g)) == concat(gs) + g,
{
    assert(gs.push(g).drop_last() =~= gs);
}

proof fn lemma_group_size_push(g: Seq<Seq<char>>, x: Seq<char>)
    requires
        g.len() > 0,
    ensures
        group_size(g.push(x)) == group_size(g) + 1 + x.len(),
{
    assert(g.push(x).drop_last() =~= g);
}

proof fn lemma_join_push(g: Seq<Seq<char>>, x: Seq<char>, sep: char)
    ensures
        g.len() > 0 ==> join(g.push(x), sep) == join(g, sep).push(sep) + x,
        g.len() == 0 ==> join(g.push(x), sep) == x,
{
    assert(g.push(x).drop_last() =~= g);
}

/// Groups `units` greedily: a unit joins the current group, after one `sep`,
/// while the group stays within `max` characters; a unit that does not fit
/// starts the next group. Each group comes back joined.
pub fn group_units(units: &Vec<Vec<char>>, sep: char, max: usize) -> (r: Vec<Vec<char>>)
    ensures
        exists|gs: Seq<Seq<Seq<char>>>|
            greedy_grouping(views(units@), gs, max as int) && #[trigger] views(r@) == gs.map_values(
                |g: Seq<Seq<char>>| join(g, sep),
            ),
{
    let ghost u = views(units@);
    let mut out: Vec<Vec<char>> = Vec::new();
    let mut cur: Vec<char> = Vec::new();
    let mut cnt: usize = 0;
    let ghost mut gs: Seq<Seq<Seq<char>>> = Seq::empty();
    let ghost mut cg: Seq<Seq<char>> = Seq::empty();
    let mut i: usize = 0;
    assert(u.take(0) =~= concat(gs) + cg);
    assert(views(out@) =~= gs.map_values(|g: Seq<Seq<char>>| join(g, sep)));
    while i < units.len()
        invariant
            i <= units.len(),
            u == views(units@),
            cnt == cg.len(),
            cur@ == join(cg, sep),
            cur@.len() == group_size(cg),
            concat(gs) + cg == u.take(i as int),
            views(out@) == gs.map_values(|g: Seq<Seq<char>>| join(g, sep)),
            forall|k: int| 0 <= k < gs.len() ==> (#[trigger] gs[k]).len() > 0,
            forall|k: int| 0 <= k < gs.len() ==> group_size(#[trigger] gs[k]) <= max || gs[k].len() == 1,
            forall|k: int|
                0 <= k < gs.len() - 1 ==> group_size(#[trigger] gs[k].push(gs[k + 1][0])) > max,
            group_size(cg) <= max || cg.len() == 1,
            cg.len() > 0 && gs.len() > 0 ==> group_size(gs.last().push(cg[0])) > max,
            cg.len() == 0 ==> gs.len() == 0,
        decreases units.len() - i,
    {
        let ghost x = u[i as int];
        assert(x == units@[i as int]@);
        proof {
            if cg.len() > 0 {
                lemma_group_size_push(cg, x);
            }
            lemma_join_push(cg, x, sep);
            lemma_group_size(cg.push(x), sep);
        }
        let n = units[i].len();
        let too_big = cnt > 0 && (cur.len() > max || n >= max - cur.len());
        if too_big {
            let ghost old_gs = gs;
            let ghost old_cg = cg;
            let ghost old_out = views(out@);
            let ghost c = cur@;
            out.push(cur);
            proof {
                lemma_concat_push(gs, cg);
                gs = gs.push(cg);
                cg = seq![x];
                assert(views(out@) =~= old_out.push(c));
                assert(views(out@) =~= gs.map_values(|g: Seq<Seq<char>>| join(g, sep)));
                assert forall|k: int| 0 <= k < gs.len() implies (#[trigger] gs[k]).len() > 0 by {
                    if k < old_gs.len() {
                        assert(gs[k] == old_gs[k]);
                    }
                }
                assert forall|k: int| 0 <= k < gs.len() implies group_size(#[trigger] gs[k]) <= max
                    || gs[k].len() == 1 by {
                    if k < old_gs.len() {
                        assert(gs[k] == old_gs[k]);
                    }
                }
                assert forall|k: int| 0 <= k < gs.len() - 1 implies group_size(
                    #[trigger] gs[k].push(gs[k + 1][0]),
                ) > max by {
                    if k < old_gs.len() - 1 {
                        assert(gs[k] == old_gs[k] && gs[k + 1] == old_gs[k + 1]);
                    } else {
                        assert(gs[k] == old_gs.last() && gs[k + 1] == old_cg);
                    }
                }
                assert(gs.last().push(cg[0]) == old_cg.push(x));
                assert(join(cg, sep) == x);
                assert(group_size(cg) == x.len());
            }
            cur = crate::text::copy_range(&units[i], 0, n);
            assert(units@[i as int]@.subrange(0, n as int) =~= x);
            cnt = 1;
        } else {
            if cnt > 0 {
                cur.push(sep);
            }
            append_chars(&mut cur, &units[i]);
            cnt = cnt + 1;
            proof {
                cg = cg.push(x);
            }
        }
        proof {
            lemma_concat_push(gs, cg);
        }
        assert(u.take(i + 1) =~= u.take(i as int).push(x));
        i = i + 1;
    }
    assert(u.take(u.len() as int) =~= u);
    let ghost fin = gs;
    if cnt > 0 {
        let ghost old_out = views(out@);
        let ghost c = cur@;
        out.push(cur);
        proof {
            lemma_concat_push(gs, cg);
            fin = gs.push(cg);
            assert(views(out@) =~= old_out.push(c));
            assert(views(out@) =~= fin.map_values(|g: Seq<Seq<char>>| join(g, sep)));
            assert forall|k: int| 0 <= k < fin.len() implies (#[trigger] fin[k]).len() > 0 by {
                if k < gs.len() {
                    assert(fin[k] == gs[k]);
                }
            }
            assert forall|k: int| 0 <= k < fin.len() implies group_size(#[trigger] fin[k]) <= max
                || fin[k].len() == 1 by {
                if k < gs.len() {
                    assert(fin[k] == gs[k]);
                }
            }
            assert forall|k: int| 0 <= k < fin.len() - 1 implies group_size(
                #[trigger] fin[k].push(fin[k + 1][0]),
            ) > max by {
                if k < gs.len() - 1 {
                    assert(fin[k] == gs[k] && fin[k + 1] == gs[k + 1]);
                } else {
                    assert(fin[k] == gs.last() && fin[k + 1] == cg);
                }
            }
        }
    } else {
        assert(concat(gs) =~= u);
    }
    assert(greedy_grouping(u, fin, max as int));
    out
}

/// The chunks of a grouping: each group joined with `sep`.
pub open spec fn joined_groups(gs: Seq<Seq<Seq<char>>>, sep: char) -> Seq<Seq<char>> {
    gs.map_values(|g: Seq<Seq<char>>| join(g, sep))
}

/// `r` is the line chunking of `text` under limit `max`.
pub open spec fn is_line_chunking(text: Seq<char>, max: int, r: Seq<Seq<char>>) -> bool {
    exists|gs: Seq<Seq<Seq<char>>>|
        greedy_grouping(lines(text), gs, max) && #[trigger] joined_groups(gs, '\n') == r
}

/// `part` is what the second pass makes of line chunk `c`: the chunk itself
/// when it fits, else its words grouped greedily with single spaces.
pub open spec fn second_pass(c: Seq<char>, max: int, part: Seq<Seq<char>>) -> bool {
    if c.len() <= max {
        part == seq![c]
    } else {
        exists|ws: Seq<Seq<Seq<char>>>|
            greedy_grouping(words(c), ws, max) && #[trigger] joined_groups(ws, ' ') == part
    }
}

/// Splits `text` into chunks of whole lines, each at most `chunk_size`
/// characters with its newlines, except a single line that is longer by
/// itself. Empty text gives no chunk.
pub fn split_text_into_line_chunks(text: &str, chunk_size: usize) -> (r: Vec<String>)
    ensures
        is_line_chunking(text@, chunk_size as int, string_views(r@)),
{
    let cs = chars_of(text);
    let ls = lines_exec(&cs);
    let groups = group_units(&ls, '\n', chunk_size);
    let mut r: Vec<String> = Vec::new();
    let mut i: usize = 0;
    while i < groups.len()
        invariant
            i <= groups.len(),
            string_views(r@) == views(groups@).take(i as int),
        decreases groups.len() - i,
    {
        let ghost before = string_views(r@);
        let c = string_of(&groups[i]);
        assert(c@ == views(groups@)[i as int]);
        r.push(c);
        assert(string_views(r@) =~= before.push(c@));
        assert(views(groups@).take(i + 1) =~= views(groups@).take(i as int).push(c@));
        i = i + 1;
    }
    assert(views(groups@).take(groups@.len() as int) =~= views(groups@));
    let ghost gs = choose|gs: Seq<Seq<Seq<char>>>|
        greedy_grouping(views(ls@), gs, chunk_size as int) && #[trigger] views(groups@)
            == gs.map_values(|g: Seq<Seq<char>>| join(g, '\n'));
    assert(joined_groups(gs, '\n') == string_views(r@));
    r
}

/// Splits `text` into chunks of at most `chunk_size` characters: first into
/// chunks of whole lines, then each line chunk that is still too long (a
/// single long line) into chunks of whole words joined by single spaces. A
/// word longer than the limit is a chunk of its own.
pub fn split_text_into_chunks(text: &str, chunk_size: usize) -> (r: Vec<String>)
    ensures
        exists|first: Seq<Seq<char>>, parts: Seq<Seq<Seq<char>>>|
            #![trigger concat(parts), is_line_chunking(text@, chunk_size as int, first)]
            is_line_chunking(text@, chunk_size as int, first) && parts.len() == first.len()
                && (forall|k: int| 0 <= k < first.len() ==> second_pass(first[k], chunk_size as int, #[trigger] parts[k]))
                && concat(parts) == string_views(r@),
{
    let first = split_text_into_line_chunks(text, chunk_size);
    let ghost f = string_views(first@);
    let ghost mut parts: Seq<Seq<Seq<char>>> = Seq::empty();
    let mut r: Vec<String> = Vec::new();
    let mut i: usize = 0;
    assert(string_views(r@) =~= concat(parts));
    while i < first.len()
        invariant
            i <= first.len(),
            f == string_views(first@),
            parts.len() == i,
            forall|k: int| 0 <= k < i ==> second_pass(f[k], chunk_size as int, #[trigger] parts[k]),
            concat(parts) == string_views(r@),
        decreases first.len() - i,
    {
        let c = chars_of(first[i].as_str());
        let ghost before = string_views(r@);
        let ghost old_parts = parts;
        if c.len() <= chunk_size {
            r.push(string_of(&c));
            proof {
                parts = parts.push(seq![f[i as int]]);
                assert(parts.drop_last() =~= old_parts);
                assert(string_views(r@) =~= before + seq![f[i as int]]);
            }
        } else {
            let ws = words_exec(&c);
            let groups = group_units(&ws, ' ', chunk_size);
            let mut k: usize = 0;
            while k < groups.len()
                invariant
                    k <= groups.len(),
                    string_views(r@) == before + views(groups@).take(k as int),
                decreases groups.len() - k,
            {
                let ghost prev = string_views(r@);
                let c = string_of(&groups[k]);
                assert(c@ == views(groups@)[k as int]);
                r.push(c);
                assert(string_views(r@) =~= prev.push(c@));
                assert(views(groups@).take(k + 1) =~= views(groups@).take(k as int).push(c@));
                assert(before + views(groups@).take(k + 1) =~= (before + views(groups@).take(k as int)).push(c@));
                k = k + 1;
            }
            assert(views(groups@).take(groups@.len() as int) =~= views(groups@));
            proof {
                let wg = choose|wg: Seq<Seq<Seq<char>>>|
                    greedy_grouping(views(ws@), wg, chunk_size as int) && #[trigger] views(groups@)
                        == wg.map_values(|g: Seq<Seq<char>>| join(g, ' '));
                assert(joined_groups(wg, ' ') == views(groups@));
                assert(second_pass(f[i as int], chunk_size as int, views(groups@)));
                parts = parts.push(views(groups@));
                assert(parts.drop_last() =~= old_parts);
            }
        }
        proof {
            assert forall|k: int| 0 <= k < i + 1 implies second_pass(f[k], chunk_size as int, #[trigger] parts[k]) by {
                if k < i {
                    assert(parts[k] == old_parts[k]);
                }
            }
        }
        i = i + 1;
    }
    r
}

proof fn lemma_join_concat2(a: Seq<Seq<char>>, b: Seq<Seq<char>>, sep: char)
    requires
        a.len() > 0,
        b.len() > 0,
    ensures
        join(a + b, sep) == join(a, sep).push(sep) + join(b, sep),
    decreases b.len(),
{
    if b.len() == 1 {
        assert((a + b).drop_last() =~= a);
    } else {
        lemma_join_concat2(a, b.drop_last(), sep);
        assert((a + b).drop_last() =~= a + b.drop_last());
    }
}

proof fn lemma_join_groups(gs: Seq<Seq<Seq<char>>>, sep: char)
    requires
        forall|k: int| 0 <= k < gs.len() ==> (#[trigger] gs[k]).len() > 0,
    ensures
        join(joined_groups(gs, sep), sep) == join(concat(gs), sep),
        gs.len() > 0 ==> concat(gs).len() > 0,
    decreases gs.len(),
{
    if gs.len() > 0 {
        let d = gs.drop_last();
        assert forall|k: int| 0 <= k < d.len() implies (#[trigger] d[k]).len() > 0 by {
            assert(d[k] == gs[k]);
        }
        lemma_join_groups(d, sep);
        assert(joined_groups(gs, sep).drop_last() =~= joined_groups(d, sep));
        assert(gs.last() == gs[gs.len() - 1]);
        if d.len() > 0 {
            lemma_join_concat2(concat(d), gs.last(), sep);
        } else {
            assert(concat(d) =~= Seq::<Seq<char>>::empty());
            assert(concat(gs) =~= gs.last());
        }
    }
}

proof fn lemma_join_split(s: Seq<char>, sep: char)
    ensures
        join(split_on(s, sep), sep) == s,
    decreases s.len(),
{
    if s.len() > 0 {
        let d = s.drop_last();
        lemma_join_split(d, sep);
        lemma_split_on_nonempty(d, sep);
        let p = split_on(d, sep);
        if s.last() == sep {
            assert(p.push(Seq::empty()).drop_last() =~= p);
            assert(join(p, sep).push(sep) + Seq::<char>::empty() =~= s);
        } else {
            let q = p.update(p.len() - 1, p.last().push(s.last()));
            if p.len() == 1 {
                assert(q[0] =~= s);
            } else {
                assert(q.drop_last() =~= p.drop_last());
                assert(join(p.drop_last(), sep).push(sep) + p.last().push(s.last()) =~= (join(
                    p.drop_last(),
                    sep,
                ).push(sep) + p.last()).push(s.last()));
            }
        }
    }
}

/// `s` without one final newline.
pub open spec fn without_final_newline(s: Seq<char>) -> Seq<char> {
    if s.len() > 0 && s.last() == '\n' {
        s.drop_last()
    } else {
        s
    }
}

/// Line chunking never drops characters: the chunks joined again with
/// newlines give back the text (less one final newline), and each chunk fits
/// the limit unless it is a single line.
pub proof fn lemma_line_chunks_lossless(s: Seq<char>, max: int, r: Seq<Seq<char>>)
    requires
        is_line_chunking(s, max, r),
    ensures
        join(r, '\n') == without_final_newline(s),
        forall|k: int| 0 <= k < r.len() ==> (#[trigger] r[k]).len() <= max || exists|line: Seq<char>| lines(s).contains(line) && r[k] == line,
{
    let gs = choose|gs: Seq<Seq<Seq<char>>>|
        greedy_grouping(lines(s), gs, max) && #[trigger] joined_groups(gs, '\n') == r;
    lemma_join_groups(gs, '\n');
    lemma_join_split(s, '\n');
    lemma_split_on_nonempty(s, '\n');
    let p = split_on(s, '\n');
    if p.last().len() == 0 {
        if p.len() == 1 {
            assert(s.len() == 0) by {
                if s.len() > 0 {
                    lemma_split_on_nonempty(s.drop_last(), '\n');
                    if s.last() != '\n' {
                        assert(p.last().len() > 0);
                    }
                }
            }
        } else {
            assert(s.len() > 0 && s.last() == '\n') by {
                if s.len() == 0 {
                } else if s.last() != '\n' {
                    lemma_split_on_nonempty(s.drop_last(), '\n');
                }
            }
            let d = p.drop_last();
            assert(p =~= d.push(Seq::empty()));
            assert(d.push(Seq::<char>::empty()).drop_last() =~= d);
            assert(join(p, '\n') =~= join(d, '\n').push('\n'));
        }
    }
    assert forall|k: int| 0 <= k < r.len() implies (#[trigger] r[k]).len() <= max || exists|line: Seq<char>|
        lines(s).contains(line) && r[k] == line by {
        lemma_group_size(gs[k], '\n');
        assert(r[k] == join(gs[k], '\n'));
        if gs[k].len() == 1 {
            lemma_unit_in_concat(gs, k);
            assert(lines(s).contains(gs[k][0]));
        }
    }
}

proof fn lemma_unit_in_concat(gs: Seq<Seq<Seq<char>>>, k: int)
    requires
        0 <= k < gs.len(),
        gs[k].len() > 0,
    ensures
        concat(gs).contains(gs[k][0]),
    decreases gs.len(),
{
    let d = gs.drop_last();
    if k < gs.len() - 1 {
        assert(d[k] == gs[k]);
        lemma_unit_in_concat(d, k);
        let j = choose|j: int| 0 <= j < concat(d).len() && concat(d)[j] == gs[k][0];
        assert(concat(gs)[j] == concat(d)[j]);
    } else {
        assert(concat(gs)[concat(d).len() as int] == gs[k][0]);
    }
}

proof fn lemma_words_acc_no_ws(s: Seq<char>)
    ensures
        forall|k: int| 0 <= k < words_acc(s).0.len() ==> !crate::text::has_ws(#[trigger] words_acc(s).0[k]),
        !crate::text::has_ws(words_acc(s).1),
    decreases s.len(),
{
    if s.len() > 0 {
        lemma_words_acc_no_ws(s.drop_last());
        let (w, cur) = words_acc(s.drop_last());
        if is_ws(s.last()) {
            if cur.len() > 0 {
                assert forall|k: int| 0 <= k < w.push(cur).len() implies !crate::text::has_ws(
                    #[trigger] w.push(cur)[k],
                ) by {
                    if k < w.len() {
                        assert(w.push(cur)[k] == w[k]);
                    }
                }
            }
            assert(Seq::<char>::empty().len() == 0);
        } else {
            let c = cur.push(s.last());
            assert forall|i: int| 0 <= i < c.len() implies !is_ws(#[trigger] c[i]) by {
                if i < cur.len() {
                    assert(c[i] == cur[i]);
                }
            }
        }
    }
}

proof fn lemma_words_no_ws(s: Seq<char>)
    ensures
        forall|k: int| 0 <= k < words(s).len() ==> !crate::text::has_ws(#[trigger] words(s)[k]),
{
    lemma_words_acc_no_ws(s);
    let (w, cur) = words_acc(s);
    if cur.len() > 0 {
        assert forall|k: int| 0 <= k < w.push(cur).len() implies !crate::text::has_ws(#[trigger] w.push(cur)[k]) by {
            if k < w.len() {
                assert(w.push(cur)[k] == w[k]);
            }
        }
    }
}

proof fn lemma_unit_of_grouping(units: Seq<Seq<char>>, gs: Seq<Seq<Seq<char>>>, k: int, i: int)
    requires
        concat(gs) == units,
        0 <= k < gs.len(),
        0 <= i < gs[k].len(),
    ensures
        units.contains(gs[k][i]),
    decreases gs.len(),
{
    let d = gs.drop_last();
    lemma_concat_push(d, gs.last());
    assert(gs =~= d.push(gs.last()));
    if k < gs.len() - 1 {
        assert(d[k] == gs[k]);
        lemma_unit_of_grouping(concat(d), d, k, i);
        let j = choose|j: int| 0 <= j < concat(d).len() && concat(d)[j] == gs[k][i];
        assert(units[j] == concat(d)[j]);
    } else {
        assert(units[concat(d).len() + i] == gs[k][i]);
    }
}

proof fn lemma_part_of_concat(parts: Seq<Seq<Seq<char>>>, k: int) -> (j: (int, int))
    requires
        0 <= k < concat(parts).len(),
    ensures
        0 <= j.0 < parts.len(),
        0 <= j.1 < parts[j.0].len(),
        concat(parts)[k] == parts[j.0][j.1],
    decreases parts.len(),
{
    let d = parts.drop_last();
    lemma_concat_push(d, parts.last());
    assert(parts =~= d.push(parts.last()));
    if k < concat(d).len() {
        let j = lemma_part_of_concat(d, k);
        assert(parts[j.0] == d[j.0]);
        j
    } else {
        (parts.len() - 1, k - concat(d).len())
    }
}

/// No chunk of the two-pass chunking is over the limit, except a single word
/// (a chunk without whitespace) that is longer than the limit by itself.
pub proof fn lemma_chunks_within_limit(
    max: int,
    first: Seq<Seq<char>>,
    parts: Seq<Seq<Seq<char>>>,
)
    requires
        parts.len() == first.len(),
        forall|k: int| 0 <= k < first.len() ==> second_pass(first[k], max, #[trigger] parts[k]),
    ensures
        forall|k: int|
            0 <= k < concat(parts).len() ==> (#[trigger] concat(parts)[k]).len() <= max
                || !crate::text::has_ws(concat(parts)[k]),
{
    assert forall|k: int| 0 <= k < concat(parts).len() implies (#[trigger] concat(parts)[k]).len() <= max
        || !crate::text::has_ws(concat(parts)[k]) by {
        let (a, b) = lemma_part_of_concat(parts, k);
        assert(second_pass(first[a], max, parts[a]));
        let c = first[a];
        if c.len() > max {
            let ws = choose|ws: Seq<Seq<Seq<char>>>|
                greedy_grouping(words(c), ws, max) && #[trigger] joined_groups(ws, ' ') == parts[a];
            let g = ws[b];
            assert(parts[a][b] == join(g, ' '));
            lemma_group_size(g, ' ');
            if !(group_size(g) <= max) {
                assert(g.len() == 1);
                lemma_unit_of_grouping(words(c), ws, b, 0);
                lemma_words_no_ws(c);
                let j = choose|j: int| 0 <= j < words(c).len() && words(c)[j] == g[0];
                assert(!crate::text::has_ws(words(c)[j]));
            }
        }
    }
}

/// The words of each text of `cs`, one after another.
pub open spec fn all_words(cs: Seq<Seq<char>>) -> Seq<Seq<char>>
    decreases cs.len(),
{
    if cs.len() == 0 {
        Seq::empty()
    } else {
        all_words(cs.drop_last()) + words(cs.last())
    }
}

proof fn lemma_words_acc_after_ws(a: Seq<char>, c: char, b: Seq<char>)
    requires
        is_ws(c),
    ensures
        words_acc(a.push(c) + b) == (words(a) + words_acc(b).0, words_acc(b).1),
    decreases b.len(),
{
    if b.len() == 0 {
        assert(a.push(c) + b =~= a.push(c));
        assert((a.push(c)).drop_last() =~= a);
        let (w, cur) = words_acc(a);
        if cur.len() > 0 {
            assert(words(a) + Seq::<Seq<char>>::empty() =~= w.push(cur));
        } else {
            assert(words(a) + Seq::<Seq<char>>::empty() =~= w);
        }
    } else {
        let d = b.drop_last();
        lemma_words_acc_after_ws(a, c, d);
        assert((a.push(c) + b).drop_last() =~= a.push(c) + d);
        assert((a.push(c) + b).last() == b.last());
        let (wb, cur) = words_acc(d);
        if is_ws(b.last()) && cur.len() > 0 {
            assert(words(a) + wb.push(cur) =~= (words(a) + wb).push(cur));
        }
    }
}

proof fn lemma_words_after_ws(a: Seq<char>, c: char, b: Seq<char>)
    requires
        is_ws(c),
    ensures
        words(a.push(c) + b) == words(a) + words(b),
{
    lemma_words_acc_after_ws(a, c, b);
    let (wb, cur) = words_acc(b);
    if cur.len() > 0 {
        assert((words(a) + wb).push(cur) =~= words(a) + wb.push(cur));
    }
}

proof fn lemma_words_join(g: Seq<Seq<char>>, sep: char)
    requires
        is_ws(sep),
    ensures
        words(join(g, sep)) == all_words(g),
    decreases g.len(),
{
    if g.len() == 1 {
        assert(g.drop_last() =~= Seq::<Seq<char>>::empty());
        assert(all_words(g.drop_last()) == Seq::<Seq<char>>::empty());
        assert(g.last() == g[0]);
        assert(Seq::<Seq<char>>::empty() + words(g[0]) =~= words(g[0]));
    } else if g.len() > 1 {
        lemma_words_join(g.drop_last(), sep);
        lemma_words_after_ws(join(g.drop_last(), sep), sep, g.last());
    }
}

proof fn lemma_words_acc_plain(w: Seq<char>)
    requires
        !crate::text::has_ws(w),
    ensures
        words_acc(w) == (Seq::<Seq<char>>::empty(), w),
    decreases w.len(),
{
    if w.len() > 0 {
        let d = w.drop_last();
        assert(!crate::text::has_ws(d)) by {
            if crate::text::has_ws(d) {
                let i = choose|i: int| 0 <= i < d.len() && is_ws(#[trigger] d[i]);
                assert(w[i] == d[i]);
            }
        }
        lemma_words_acc_plain(d);
        assert(!is_ws(w[w.len() - 1]));
        assert(d.push(w.last()) =~= w);
    }
}

proof fn lemma_all_words_plain(u: Seq<Seq<char>>)
    requires
        forall|i: int| 0 <= i < u.len() ==> (#[trigger] u[i]).len() > 0 && !crate::text::has_ws(u[i]),
    ensures
        all_words(u) == u,
    decreases u.len(),
{
    if u.len() > 0 {
        let d = u.drop_last();
        assert forall|i: int| 0 <= i < d.len() implies (#[trigger] d[i]).len() > 0 && !crate::text::has_ws(d[i]) by {
            assert(d[i] == u[i]);
        }
        lemma_all_words_plain(d);
        assert(u.last() == u[u.len() - 1]);
        lemma_words_acc_plain(u.last());
        assert(words(u.last()) =~= seq![u.last()]);
        assert(d + seq![u.last()] =~= u);
    }
}

proof fn lemma_all_words_append(a: Seq<Seq<char>>, b: Seq<Seq<char>>)
    ensures
        all_words(a + b) == all_words(a) + all_words(b),
    decreases b.len(),
{
    if b.len() == 0 {
        assert(a + b =~= a);
        assert(all_words(a) + Seq::<Seq<char>>::empty() =~= all_words(a));
    } else {
        lemma_all_words_append(a, b.drop_last());
        assert((a + b).drop_last() =~= a + b.drop_last());
        assert((a + b).last() == b.last());
        assert(all_words(a) + (all_words(b.drop_last()) + words(b.last())) =~= (all_words(a) + all_words(
            b.drop_last(),
        )) + words(b.last()));
    }
}

proof fn lemma_words_of_word_groups(ws: Seq<Seq<Seq<char>>>)
    requires
        forall|j: int| 0 <= j < concat(ws).len() ==> (#[trigger] concat(ws)[j]).len() > 0 && !crate::text::has_ws(concat(ws)[j]),
    ensures
        all_words(joined_groups(ws, ' ')) == concat(ws),
    decreases ws.len(),
{
    if ws.len() > 0 {
        let d = ws.drop_last();
        lemma_concat_push(d, ws.last());
        assert(ws =~= d.push(ws.last()));
        assert forall|j: int| 0 <= j < concat(d).len() implies (#[trigger] concat(d)[j]).len() > 0
            && !crate::text::has_ws(concat(d)[j]) by {
            assert(concat(ws)[j] == concat(d)[j]);
        }
        lemma_words_of_word_groups(d);
        assert(joined_groups(ws, ' ').drop_last() =~= joined_groups(d, ' '));
        assert(joined_groups(ws, ' ').last() == join(ws.last(), ' '));
        assert(is_ws(' '));
        lemma_words_join(ws.last(), ' ');
        let g = ws.last();
        assert forall|i: int| 0 <= i < g.len() implies (#[trigger] g[i]).len() > 0 && !crate::text::has_ws(g[i]) by {
            assert(concat(ws)[concat(d).len() + i] == g[i]);
        }
        lemma_all_words_plain(g);
    }
}

proof fn lemma_second_pass_words(c: Seq<char>, max: int, part: Seq<Seq<char>>)
    requires
        second_pass(c, max, part),
    ensures
        all_words(part) == words(c),
{
    if c.len() <= max {
        assert(part.drop_last() =~= Seq::<Seq<char>>::empty());
        assert(all_words(part.drop_last()) == Seq::<Seq<char>>::empty());
        assert(part.last() == c);
        assert(Seq::<Seq<char>>::empty() + words(c) =~= words(c));
    } else {
        let ws = choose|ws: Seq<Seq<Seq<char>>>|
            greedy_grouping(words(c), ws, max) && #[trigger] joined_groups(ws, ' ') == part;
        lemma_words_no_ws(c);
        lemma_words_nonempty(c);
        lemma_words_of_word_groups(ws);
    }
}

proof fn lemma_words_nonempty(s: Seq<char>)
    ensures
        forall|k: int| 0 <= k < words(s).len() ==> (#[trigger] words(s)[k]).len() > 0,
    decreases s.len(),
{
    lemma_words_acc_nonempty(s);
    let (w, cur) = words_acc(s);
    if cur.len() > 0 {
        assert forall|k: int| 0 <= k < w.push(cur).len() implies (#[trigger] w.push(cur)[k]).len() > 0 by {
            if k < w.len() {
                assert(w.push(cur)[k] == w[k]);
            }
        }
    }
}

proof fn lemma_words_acc_nonempty(s: Seq<char>)
    ensures
        forall|k: int| 0 <= k < words_acc(s).0.len() ==> (#[trigger] words_acc(s).0[k]).len() > 0,
    decreases s.len(),
{
    if s.len() > 0 {
        lemma_words_acc_nonempty(s.drop_last());
        let (w, cur) = words_acc(s.drop_last());
        if is_ws(s.last()) && cur.len() > 0 {
            assert forall|k: int| 0 <= k < w.push(cur).len() implies (#[trigger] w.push(cur)[k]).len() > 0 by {
                if k < w.len() {
                    assert(w.push(cur)[k] == w[k]);
                }
            }
        }
    }
}

proof fn lemma_parts_words(first: Seq<Seq<char>>, parts: Seq<Seq<Seq<char>>>, max: int, n: int)
    requires
        parts.len() == first.len(),
        0 <= n <= first.len(),
        forall|k: int| 0 <= k < first.len() ==> second_pass(first[k], max, #[trigger] parts[k]),
    ensures
        all_words(concat(parts.take(n))) == all_words(first.take(n)),
    decreases n,
{
    if n == 0 {
        assert(parts.take(0) =~= Seq::<Seq<Seq<char>>>::empty());
        assert(first.take(0) =~= Seq::<Seq<char>>::empty());
    } else {
        lemma_parts_words(first, parts, max, n - 1);
        assert(parts.take(n).drop_last() =~= parts.take(n - 1));
        assert(first.take(n).drop_last() =~= first.take(n - 1));
        lemma_all_words_append(concat(parts.take(n - 1)), parts[n - 1]);
        lemma_second_pass_words(first[n - 1], max, parts[n - 1]);
    }
}

proof fn lemma_words_trailing_newline(s: Seq<char>)
    ensures
        words(without_final_newline(s)) == words(s),
{
    if s.len() > 0 && s.last() == '\n' {
        let d = s.drop_last();
        assert(d.push('\n') + Seq::<char>::empty() =~= s);
        lemma_words_after_ws(d, '\n', Seq::empty());
        assert(words_acc(Seq::<char>::empty()) == (Seq::<Seq<char>>::empty(), Seq::<char>::empty()));
        assert(words(d) + Seq::<Seq<char>>::empty() =~= words(d));
    }
}

/// The two-pass chunking keeps every word of the text: the words of the
/// chunks, taken one chunk after another, are exactly the words of the text
/// in order (only the whitespace between words may change).
pub proof fn lemma_chunks_keep_words(
    text: Seq<char>,
    max: int,
    first: Seq<Seq<char>>,
    parts: Seq<Seq<Seq<char>>>,
)
    requires
        is_line_chunking(text, max, first),
        parts.len() == first.len(),
        forall|k: int| 0 <= k < first.len() ==> second_pass(first[k], max, #[trigger] parts[k]),
    ensures
        all_words(concat(parts)) == words(text),
{
    lemma_line_chunks_lossless(text, max, first);
    assert(is_ws('\n'));
    lemma_words_join(first, '\n');
    lemma_words_trailing_newline(text);
    lemma_parts_words(first, parts, max, first.len() as int);
    assert(parts.take(parts.len() as int) =~= parts);
    assert(first.take(first.len() as int) =~= first);
}

} // verus!
