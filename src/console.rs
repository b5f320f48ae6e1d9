//! ANSI styling of console text. Printing itself is left to the caller; this
//! module only decides what text is printed.
use vstd::prelude::*;

use crate::chunker::join;
use crate::text::{append_chars, append_str, decimal, decimal_chars, string_of};

verus! {

/// A terminal style.
#[derive(Clone, Copy, Debug, PartialEq, Eq, Structural)]
pub enum Style {
    Bold,
    Dim,
    Red,
    Green,
    Yellow,
    Blue,
    Magenta,
    Cyan,
    Gray,
}

/// The ANSI code of a style.
pub open spec fn style_code(s: Style) -> Seq<char> {
    match s {
        Style::Bold => seq!['1'],
        Style::Dim => seq!['2'],
        Style::Red => seq!['3', '1'],
        Style::Green => seq!['3', '2'],
        Style::Yellow => seq!['3', '3'],
        Style::Blue => seq!['3', '4'],
        Style::Magenta => seq!['3', '5'],
        Style::Cyan => seq!['3', '6'],
        Style::Gray => seq!['9', '0'],
    }
}

impl Style {
    /// The ANSI code of this style.
    pub fn code(self) -> (r: Vec<char>)
        ensures
            r@ == style_code(self),
    {
        let r: Vec<char> = match self {
            Style::Bold => vec!['1'],
            Style::Dim => vec!['2'],
            Style::Red => vec!['3', '1'],
            Style::Green => vec!['3', '2'],
            Style::Yellow => vec!['3', '3'],
            Style::Blue => vec!['3', '4'],
            Style::Magenta => vec!['3', '5'],
            Style::Cyan => vec!['3', '6'],
            Style::Gray => vec!['9', '0'],
        };
        assert(r@ =~= style_code(self));
        r
    }
}

/// The codes of `ss`, in order.
pub open spec fn codes(ss: Seq<Style>) -> Seq<Seq<char>> {
    ss.map_values(|s: Style| style_code(s))
}

/// The escape that resets all styles.
pub open spec fn reset() -> Seq<char> {
    seq!['\u{1b}', '[', '0', 'm']
}

/// `text` in styles `ss`: unchanged when colours are off or no style is
/// given, else behind one escape with the codes joined by `;` and before a reset.
pub open spec fn styled(colors: bool, text: Seq<char>, ss: Seq<Style>) -> Seq<char> {
    if !colors || ss.len() == 0 {
        text
    } else {
        seq!['\u{1b}', '['] + join(codes(ss), ';') + seq!['m'] + text + reset()
    }
}

/// Console text styling, with colours on or off.
#[derive(Debug)]
pub struct Console {
    colors_enabled: bool,
}

impl Console {
    /// Whether colours are on.
    pub closed spec fn colors(&self) -> bool {
        self.colors_enabled
    }

    /// A console with colours on or off.
    pub fn with_colors(enabled: bool) -> (r: Console)
        ensures
            r.colors() == enabled,
    {
        Console { colors_enabled: enabled }
    }

    /// Whether colours are on.
    pub fn colors_enabled(&self) -> (r: bool)
        ensures
            r == self.colors(),
    {
        self.colors_enabled
    }

    /// `text` in `styles`, when colours are on.
    pub fn style(&self, text: &str, styles: &[Style]) -> (r: String)
        ensures
            r@ == styled(self.colors(), text@, styles@),
    {
        if !self.colors_enabled || styles.len() == 0 {
            return crate::text::owned(text);
        }
        let mut v: Vec<char> = vec!['\u{1b}', '['];
        let ghost head = v@;
        let mut i: usize = 0;
        assert(codes(styles@).take(0) =~= Seq::<Seq<char>>::empty());
        while i < styles.len()
            invariant
                i <= styles.len(),
                head == seq!['\u{1b}', '['],
                v@ == head + join(codes(styles@).take(i as int), ';'),
            decreases styles.len() - i,
        {
            let ghost cs = codes(styles@).take(i + 1);
            assert(cs.drop_last() =~= codes(styles@).take(i as int));
            if i > 0 {
                v.push(';');
            }
            let c = styles[i].code();
            append_chars(&mut v, &c);
            if i == 0 {
                assert(v@ =~= head + cs[0]);
            } else {
                assert(v@ =~= head + (join(cs.drop_last(), ';').push(';') + cs.last()));
            }
            i = i + 1;
        }
        assert(codes(styles@).take(styles@.len() as int) =~= codes(styles@));
        v.push('m');
        append_str(&mut v, text);
        v.push('\u{1b}');
        v.push('[');
        v.push('0');
        v.push('m');
        assert(v@ =~= styled(self.colors(), text@, styles@));
        string_of(&v)
    }

    /// A label such as `[INFO]`, its text in `color` and bold.
    pub fn label(&self, label: &str, color: Style) -> (r: String)
        ensures
            r@ == seq!['['] + styled(self.colors(), label@, seq![color, Style::Bold]) + seq![']'],
    {
        let styles = [color, Style::Bold];
        let s = self.style(label, &styles);
        assert(styles@ =~= seq![color, Style::Bold]);
        let mut v: Vec<char> = vec!['['];
        append_str(&mut v, s.as_str());
        v.push(']');
        assert(v@ =~= seq!['['] + styled(self.colors(), label@, seq![color, Style::Bold]) + seq![']']);
        string_of(&v)
    }

    /// `text` dimmed and grey.
    pub fn muted(&self, text: &str) -> (r: String)
        ensures
            r@ == styled(self.colors(), text@, seq![Style::Gray, Style::Dim]),
    {
        let styles = [Style::Gray, Style::Dim];
        assert(styles@ =~= seq![Style::Gray, Style::Dim]);
        self.style(text, &styles)
    }

    /// The number `n` in green and bold.
    pub fn count(&self, n: usize) -> (r: String)
        ensures
            r@ == styled(self.colors(), decimal(n as nat), seq![Style::Green, Style::Bold]),
    {
        let d = string_of(&decimal_chars(n as u64));
        let styles = [Style::Green, Style::Bold];
        assert(styles@ =~= seq![Style::Green, Style::Bold]);
        self.style(d.as_str(), &styles)
    }

    /// `[Chapter <chapter>, Chunk <chunk>/<total_chunks>]` in cyan and bold.
    pub fn chunk_info(&self, chapter: u32, chunk: u32, total_chunks: u32) -> (r: String)
        ensures
            r@ == styled(
                self.colors(),
                chunk_info_text(chapter as nat, chunk as nat, total_chunks as nat),
                seq![Style::Cyan, Style::Bold],
            ),
    {
        let mut v: Vec<char> = vec!['[', 'C', 'h', 'a', 'p', 't', 'e', 'r', ' '];
        append_chars(&mut v, &decimal_chars(chapter as u64));
        v.push(',');
        v.push(' ');
        v.push('C');
        v.push('h');
        v.push('u');
        v.push('n');
        v.push('k');
        v.push(' ');
        append_chars(&mut v, &decimal_chars(chunk as u64));
        v.push('/');
        append_chars(&mut v, &decimal_chars(total_chunks as u64));
        v.push(']');
        assert(v@ =~= chunk_info_text(chapter as nat, chunk as nat, total_chunks as nat));
        let t = string_of(&v);
        let styles = [Style::Cyan, Style::Bold];
        assert(styles@ =~= seq![Style::Cyan, Style::Bold]);
        self.style(t.as_str(), &styles)
    }
}

/// `[Chapter <chapter>, Chunk <chunk>/<total>]`.
pub open spec fn chunk_info_text(chapter: nat, chunk: nat, total: nat) -> Seq<char> {
    seq!['[', 'C', 'h', 'a', 'p', 't', 'e', 'r', ' '] + decimal(chapter) + seq![
        ',',
        ' ',
        'C',
        'h',
        'u',
        'n',
        'k',
        ' ',
    ] + decimal(chunk) + seq!['/'] + decimal(total) + seq![']']
}

} // verus!
