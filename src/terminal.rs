//! Text layout for a terminal of a given width: rules, centred titles and
//! side-by-side columns.
use vstd::prelude::*;
use vstd::string::{StrSliceExecFns, StringExecFns};

verus! {

/// Width assumed when the terminal's own width is unknown.
pub const DEFAULT_WIDTH: u16 = 40;

/// `n` copies of `c`.
pub open spec fn repeat(c: char, n: nat) -> Seq<char> {
    Seq::new(n, |i: int| c)
}

/// A full-width rule of `=`, then a line break.
pub open spec fn divider_text(width: nat) -> Seq<char> {
    repeat('=', width) + "\n"@
}

/// `text` between equal runs of spaces that centre it, then a line break;
/// no padding when the text is as wide as the terminal or wider.
pub open spec fn centred_text(width: nat, text: Seq<char>) -> Seq<char> {
    let pad: nat = if width >= text.len() { ((width - text.len()) / 2) as nat } else { 0 };
    repeat(' ', pad) + text + repeat(' ', pad) + "\n"@
}

/// The text cut at each line break; the last piece is what follows the last
/// break.
pub open spec fn pieces(text: Seq<char>) -> Seq<Seq<char>>
    decreases text.len(),
{
    if text.len() == 0 {
        seq![Seq::empty()]
    } else {
        let p = pieces(text.drop_last());
        if text.last() == '\n' {
            p.push(Seq::empty())
        } else {
            p.update(p.len() - 1, p.last().push(text.last()))
        }
    }
}

/// A line without its closing carriage return, if it has one.
pub open spec fn strip_cr(line: Seq<char>) -> Seq<char> {
    if line.len() > 0 && line.last() == '\r' {
        line.drop_last()
    } else {
        line
    }
}

/// The lines of a text: cut at line breaks, with no empty line after a
/// final break, and carriage returns before breaks dropped.
pub open spec fn text_lines(text: Seq<char>) -> Seq<Seq<char>> {
    let p = pieces(text);
    let q = if p.last().len() == 0 { p.drop_last() } else { p };
    q.map_values(|l: Seq<char>| strip_cr(l))
}

/// Most lines in any of the columns.
pub open spec fn max_lines(cols: Seq<Seq<Seq<char>>>) -> nat
    decreases cols.len(),
{
    if cols.len() == 0 {
        0
    } else {
        let m = max_lines(cols.drop_last());
        if cols.last().len() > m {
            cols.last().len()
        } else {
            m
        }
    }
}

/// What a column shows on a row: its line there, or a single space below
/// its last line.
pub open spec fn cell(col: Seq<Seq<char>>, row: int) -> Seq<char> {
    if row < col.len() {
        col[row]
    } else {
        " "@
    }
}

/// A cell padded with spaces to the column width (not cut when wider).
pub open spec fn padded(s: Seq<char>, width: nat) -> Seq<char> {
    s + repeat(' ', if width >= s.len() { (width - s.len()) as nat } else { 0 })
}

/// One row across the first `n` columns.
pub open spec fn row_text(cols: Seq<Seq<Seq<char>>>, row: int, width: nat, n: nat) -> Seq<char>
    decreases n,
{
    if n == 0 {
        Seq::empty()
    } else {
        row_text(cols, row, width, (n - 1) as nat) + padded(cell(cols[n - 1], row), width)
    }
}

/// The first `rows` rows, each closed by a line break.
pub open spec fn rows_text(cols: Seq<Seq<Seq<char>>>, rows: nat, width: nat) -> Seq<char>
    decreases rows,
{
    if rows == 0 {
        Seq::empty()
    } else {
        rows_text(cols, (rows - 1) as nat, width) + row_text(cols, rows - 1, width, cols.len()) + "\n"@
    }
}

/// Texts laid out side by side in columns of equal width.
pub open spec fn columns_text(width: nat, texts: Seq<Seq<char>>) -> Seq<char> {
    if texts.len() == 0 {
        Seq::empty()
    } else {
        let cols = texts.map_values(|t: Seq<char>| text_lines(t));
        rows_text(cols, max_lines(cols), width / texts.len())
    }
}

/// The characters of each string.
pub open spec fn string_views(texts: Seq<String>) -> Seq<Seq<char>> {
    texts.map_values(|t: String| t@)
}

/// The strings hold exactly the given lines.
pub open spec fn holds_lines(v: Seq<String>, lines: Seq<Seq<char>>) -> bool {
    &&& v.len() == lines.len()
    &&& forall|k: int| 0 <= k < v.len() ==> (#[trigger] v[k])@ == lines[k]
}

proof fn lemma_pieces_nonempty(text: Seq<char>)
    ensures
        pieces(text).len() >= 1,
    decreases text.len(),
{
    if text.len() > 0 {
        lemma_pieces_nonempty(text.drop_last());
    }
}

/// Appends `n` copies of the one-char string `c`.
fn append_repeat(s: &mut String, c: &str, n: usize)
    requires
        c@.len() == 1,
    ensures
        final(s)@ == old(s)@ + repeat(c@[0], n as nat),
{
    let mut i: usize = 0;
    while i < n
        invariant
            c@.len() == 1,
            i <= n,
            s@ == old(s)@ + repeat(c@[0], i as nat),
        decreases n - i,
    {
        s.append(c);
        proof {
            assert(repeat(c@[0], (i + 1) as nat) =~= repeat(c@[0], i as nat) + c@);
        }
        i = i + 1;
    }
}

/// A line without its closing carriage return, as a string.
fn strip_cr_string(line: &str) -> (r: String)
    ensures
        r@ == strip_cr(line@),
{
    let m = line.unicode_len();
    if m > 0 && line.get_char(m - 1) == '\r' {
        line.substring_char(0, m - 1).to_owned()
    } else {
        line.to_owned()
    }
}

/// The lines of a text, as `text_lines` gives them.
pub fn split_lines(text: &str) -> (r: Vec<String>)
    ensures
        r@.len() == text_lines(text@).len(),
        forall|j: int| 0 <= j < r@.len() ==> (#[trigger] r@[j])@ == text_lines(text@)[j],
{
    let n = text.unicode_len();
    let mut lines: Vec<String> = Vec::new();
    let mut start: usize = 0;
    let mut i: usize = 0;
    proof {
        assert(text@.subrange(0, 0) =~= Seq::<char>::empty());
    }
    while i < n
        invariant
            start <= i <= n,
            n == text@.len(),
            pieces(text@.subrange(0, i as int)).len() == lines@.len() + 1,
            pieces(text@.subrange(0, i as int)).last() == text@.subrange(start as int, i as int),
            forall|j: int|
                0 <= j < lines@.len() ==> (#[trigger] lines@[j])@ == strip_cr(pieces(text@.subrange(0, i as int))[j]),
        decreases n - i,
    {
        let ghost prev = pieces(text@.subrange(0, i as int));
        proof {
            lemma_pieces_nonempty(text@.subrange(0, i as int));
            assert(text@.subrange(0, i + 1).drop_last() =~= text@.subrange(0, i as int));
            assert(text@.subrange(0, i + 1).last() == text@[i as int]);
        }
        if text.get_char(i) == '\n' {
            let piece = strip_cr_string(text.substring_char(start, i));
            lines.push(piece);
            start = i + 1;
            proof {
                assert(text@.subrange(start as int, i + 1) =~= Seq::<char>::empty());
            }
        } else {
            proof {
                assert(text@.subrange(start as int, i + 1) =~= text@.subrange(start as int, i as int).push(
                    text@[i as int],
                ));
            }
        }
        i = i + 1;
    }
    let ghost all = pieces(text@.subrange(0, n as int));
    proof {
        assert(text@.subrange(0, n as int) =~= text@);
    }
    if start < n {
        let piece = strip_cr_string(text.substring_char(start, n));
        lines.push(piece);
    }
    lines
}

/// A terminal of a known width, in columns.
#[derive(Clone, Copy, Debug, PartialEq, Eq)]
pub struct Terminal {
    size: u16,
}

impl Terminal {
    pub closed spec fn width(&self) -> nat {
        self.size as nat
    }

    /// A terminal `cols` wide, or `DEFAULT_WIDTH` when the width is unknown.
    pub fn new(cols: Option<u16>) -> (r: Terminal)
        ensures
            r.width() == match cols {
                Some(c) => c,
                None => DEFAULT_WIDTH,
            },
    {
        let size = match cols {
            Some(c) => c,
            None => DEFAULT_WIDTH,
        };
        Terminal { size }
    }

    /// Takes a newly read width, or `DEFAULT_WIDTH` when it is unknown.
    pub fn resize(&mut self, cols: Option<u16>)
        ensures
            final(self).width() == match cols {
                Some(c) => c,
                None => DEFAULT_WIDTH,
            },
    {
        self.size = match cols {
            Some(c) => c,
            None => DEFAULT_WIDTH,
        };
    }

    pub fn size(&self) -> (r: u16)
        ensures
            r == self.width(),
    {
        self.size
    }

    /// A rule of `=` across the terminal.
    pub fn divider(&self) -> (r: String)
        ensures
            r@ == divider_text(self.width()),
    {
        let mut s = String::new();
        proof {
            reveal_strlit("=");
        }
        append_repeat(&mut s, "=", self.size as usize);
        s.append("\n");
        s
    }

    /// `text` centred on its own line.
    pub fn centre_text(&self, text: &str) -> (r: String)
        ensures
            r@ == centred_text(self.width(), text@),
    {
        let len = text.unicode_len();
        let width = self.size as usize;
        let pad = if width >= len { (width - len) / 2 } else { 0 };
        let mut s = String::new();
        proof {
            reveal_strlit(" ");
        }
        append_repeat(&mut s, " ", pad);
        s.append(text);
        append_repeat(&mut s, " ", pad);
        s.append("\n");
        s
    }
}

impl Terminal {
    /// The texts side by side, each in a column of an equal share of the
    /// width; row by row, every column's line padded with spaces to the
    /// column width, a single space standing for a column's missing line.
    pub fn column_text(&self, texts: &Vec<String>) -> (r: String)
        ensures
            r@ == columns_text(self.width(), string_views(texts@)),
    {
        let n = texts.len();
        if n == 0 {
            return String::new();
        }
        let col_size = self.size as usize / n;
        let ghost cols = string_views(texts@).map_values(|t: Seq<char>| text_lines(t));
        let mut text_split: Vec<Vec<String>> = Vec::new();
        let mut max_rows: usize = 0;
        let mut c: usize = 0;
        while c < n
            invariant
                n == texts@.len(),
                cols == string_views(texts@).map_values(|t: Seq<char>| text_lines(t)),
                c <= n,
                text_split@.len() == c,
                forall|j: int| 0 <= j < c ==> holds_lines(#[trigger] text_split@[j]@, cols[j]),
                max_rows == max_lines(cols.subrange(0, c as int)),
            decreases n - c,
        {
            let col = split_lines(texts[c].as_str());
            proof {
                assert(cols.subrange(0, c + 1).drop_last() =~= cols.subrange(0, c as int));
                assert(holds_lines(col@, cols[c as int]));
            }
            if col.len() > max_rows {
                max_rows = col.len();
            }
            text_split.push(col);
            c = c + 1;
        }
        proof {
            assert(cols.subrange(0, n as int) =~= cols);
            reveal_strlit(" ");
        }
        let mut out = String::new();
        let mut row: usize = 0;
        while row < max_rows
            invariant
                n == texts@.len() == cols.len() == text_split@.len(),
                forall|j: int| 0 <= j < n ==> holds_lines(#[trigger] text_split@[j]@, cols[j]),
                row <= max_rows,
                out@ == rows_text(cols, row as nat, col_size as nat),
            decreases max_rows - row,
        {
            let mut line = String::new();
            let mut c: usize = 0;
            while c < n
                invariant
                    n == cols.len() == text_split@.len(),
                    forall|j: int| 0 <= j < n ==> holds_lines(#[trigger] text_split@[j]@, cols[j]),
                    c <= n,
                    line@ == row_text(cols, row as int, col_size as nat, c as nat),
                decreases n - c,
            {
                let column = &text_split[c];
                let count: usize;
                proof {
                    reveal_strlit(" ");
                    assert(holds_lines(text_split@[c as int]@, cols[c as int]));
                }
                let ghost before = line@;
                if row < column.len() {
                    let s = column[row].as_str();
                    line.append(s);
                    count = s.unicode_len();
                } else {
                    line.append(" ");
                    count = 1;
                }
                let pad = if col_size >= count { col_size - count } else { 0 };
                append_repeat(&mut line, " ", pad);
                proof {
                    let cl = cell(cols[c as int], row as int);
                    assert(cl.len() == count);
                    assert(line@ =~= before + padded(cl, col_size as nat));
                }
                c = c + 1;
            }
            out.append(line.as_str());
            out.append("\n");
            row = row + 1;
        }
        out
    }
}

} // verus!
