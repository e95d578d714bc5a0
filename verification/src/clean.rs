//! Content-correcting transformations: tab expansion, trailing-whitespace
//! removal, and line-ending normalization. Each transformation is specified
//! exactly at the level of character sequences.

use vstd::prelude::*;

use crate::text::{
    chars_to_string, find_newline, join, join_chars, lemma_find_newline, lemma_find_newline_at,
    lemma_find_newline_none,
    lemma_join_last, lemma_join_push, lemma_last_line_nonempty, lemma_lines_cr_free,
    lemma_lines_no_newline, lemma_lines_of_join_nl, line_views, lines_of, push_chars, slice_chars,
    split_lines, str_chars, strip_tail_cr, whitespace_char,
};

verus! {

/// How tab characters are treated during checking and cleaning.
#[derive(Clone, Copy, Debug, PartialEq, Eq, Structural)]
pub enum TabStrategy {
    /// Tabs are violations and are expanded to spaces when cleaning.
    Untabify,
    /// Tabs are left alone.
    Tabify,
}

/// The line terminator that cleaned content is written with.
#[derive(Clone, Copy, Debug, PartialEq, Eq, Structural)]
pub enum LineEnding {
    LF,
    CRLF,
}

/// The character sequence of a line terminator.
pub open spec fn ending_seq(e: LineEnding) -> Seq<char> {
    match e {
        LineEnding::LF => seq!['\n'],
        LineEnding::CRLF => seq!['\r', '\n'],
    }
}

/// The column that follows `col` after one non-tab character, at the given
/// tab-stop width.
pub open spec fn next_column(col: nat, width: nat) -> nat {
    if col + 1 == width {
        0
    } else {
        (col + 1) % width
    }
}

/// Tab expansion of a line, starting at column `col`: a tab advances to the
/// next tab stop (consuming the remaining distance, not a fixed width), any
/// other character advances the column by one modulo the width.
pub open spec fn to_spaces_rec(line: Seq<char>, width: nat, col: nat) -> Seq<char>
    decreases line.len(),
{
    if line.len() == 0 {
        Seq::empty()
    } else if line[0] == '\t' {
        Seq::new((width - col) as nat, |i: int| ' ') + to_spaces_rec(line.drop_first(), width, 0)
    } else {
        seq![line[0]] + to_spaces_rec(line.drop_first(), width, next_column(col, width))
    }
}

/// Tab expansion of a whole line, starting at column zero.
pub open spec fn to_spaces_spec(line: Seq<char>, width: nat) -> Seq<char> {
    to_spaces_rec(line, width, 0)
}

fn to_spaces_chars(line: &Vec<char>, width: u8) -> (r: Vec<char>)
    requires
        1 <= width,
    ensures
        r@ == to_spaces_spec(line@, width as nat),
{
    let mut out: Vec<char> = Vec::new();
    let mut column: u8 = 0;
    let mut i: usize = 0;
    proof {
        assert(line@.skip(0) =~= line@);
    }
    while i < line.len()
        invariant
            i <= line@.len(),
            column < width,
            1 <= width,
            to_spaces_spec(line@, width as nat) == out@ + to_spaces_rec(
                line@.skip(i as int),
                width as nat,
                column as nat,
            ),
        decreases line@.len() - i,
    {
        let c = line[i];
        proof {
            assert(line@.skip(i as int).drop_first() =~= line@.skip(i + 1));
            assert(line@.skip(i as int)[0] == line@[i as int]);
        }
        if c == '\t' {
            let spaces = width - column;
            let ghost out0 = out@;
            let mut k: u8 = 0;
            while k < spaces
                invariant
                    k <= spaces,
                    out@ == out0 + Seq::new(k as nat, |j: int| ' '),
                decreases spaces - k,
            {
                out.push(' ');
                assert(out@ =~= out0 + Seq::new((k + 1) as nat, |j: int| ' '));
                k += 1;
            }
            column = 0;
            proof {
                assert(out@ + to_spaces_rec(line@.skip(i + 1), width as nat, 0) =~= out0 + (Seq::new(
                    spaces as nat,
                    |j: int| ' ',
                ) + to_spaces_rec(line@.skip(i + 1), width as nat, 0)));
            }
        } else {
            column = if column == width - 1 {
                0
            } else {
                (column + 1) % width
            };
            out.push(c);
            proof {
                assert(out@ + to_spaces_rec(line@.skip(i + 1), width as nat, column as nat)
                    =~= out@.drop_last() + (seq![c] + to_spaces_rec(
                    line@.skip(i + 1),
                    width as nat,
                    column as nat,
                )));
            }
        }
        i += 1;
    }
    proof {
        assert(line@.skip(line@.len() as int) =~= Seq::<char>::empty());
        assert(out@ + Seq::<char>::empty() =~= out@);
    }
    out
}

/// Expand tabs in a single line to spaces at the given tab-stop width.
pub fn to_spaces(line: &str, width: u8) -> (r: String)
    requires
        1 <= width,
    ensures
        r@ == to_spaces_spec(line@, width as nat),
{
    let chars = str_chars(line);
    let out = to_spaces_chars(&chars, width);
    chars_to_string(&out)
}

/// Space-to-tab conversion is not offered: it yields an empty line.
pub fn to_tabs(line: &str, width: u8) -> (r: String)
    ensures
        r@ == Seq::<char>::empty(),
{
    let _ = line;
    let _ = width;
    String::new()
}

/// One line after tab conversion under the chosen strategy.
pub open spec fn converted_line(l: Seq<char>, s: TabStrategy, width: nat) -> Seq<char> {
    match s {
        TabStrategy::Untabify => to_spaces_spec(l, width),
        TabStrategy::Tabify => Seq::empty(),
    }
}

/// Whole-content tab conversion: every line is converted at tab-stop width 4,
/// the lines are joined with the chosen terminator, and a final terminator is
/// kept exactly when the input ended with a newline.
pub open spec fn space_tabs_spec(c: Seq<char>, s: TabStrategy, e: LineEnding) -> Seq<char> {
    let joined = join(lines_of(c).map_values(|l: Seq<char>| converted_line(l, s, 4)), ending_seq(e));
    if c.len() > 0 && c.last() == '\n' {
        joined + ending_seq(e)
    } else {
        joined
    }
}

fn ending_chars(e: &LineEnding) -> (r: Vec<char>)
    ensures
        r@ == ending_seq(*e),
{
    match e {
        LineEnding::LF => {
            let r = vec!['\n'];
            assert(r@ =~= ending_seq(LineEnding::LF));
            r
        },
        LineEnding::CRLF => {
            let r = vec!['\r', '\n'];
            assert(r@ =~= ending_seq(LineEnding::CRLF));
            r
        },
    }
}

/// Convert tabs across whole content, at tab-stop width 4, rejoining the
/// lines with the chosen line terminator; the presence of a final newline is
/// preserved.
pub fn space_tabs_conversion(content: &str, s: TabStrategy, line_ending: LineEnding) -> (r: String)
    ensures
        r@ == space_tabs_spec(content@, s, line_ending),
{
    let chars = str_chars(content);
    let lines = split_lines(&chars);
    let ghost f = |l: Seq<char>| converted_line(l, s, 4);
    let mut conv: Vec<Vec<char>> = Vec::new();
    let mut i: usize = 0;
    proof {
        assert(line_views(conv@) =~= lines_of(content@).take(0).map_values(f));
    }
    while i < lines.len()
        invariant
            i <= lines@.len(),
            line_views(lines@) == lines_of(content@),
            line_views(conv@) == lines_of(content@).take(i as int).map_values(f),
            f == (|l: Seq<char>| converted_line(l, s, 4)),
        decreases lines@.len() - i,
    {
        let c = match s {
            TabStrategy::Untabify => to_spaces_chars(&lines[i], 4),
            TabStrategy::Tabify => Vec::new(),
        };
        proof {
            let lo = lines_of(content@);
            assert(c@ == f(lo[i as int]));
            assert(line_views(conv@.push(c)) =~= line_views(conv@).push(c@));
            assert(lo.take(i + 1).map_values(f) =~= lo.take(i as int).map_values(f).push(
                f(lo[i as int]),
            ));
        }
        conv.push(c);
        i += 1;
    }
    proof {
        let lo = lines_of(content@);
        assert(lo.take(lo.len() as int) =~= lo);
    }
    let sep = ending_chars(&line_ending);
    let mut out = join_chars(&conv, &sep);
    if chars.len() > 0 && chars[chars.len() - 1] == '\n' {
        push_chars(&mut out, &sep);
    }
    chars_to_string(&out)
}

/// A line with its trailing whitespace removed, as `str::trim_end` does.
pub open spec fn trim_end_spec(l: Seq<char>) -> Seq<char>
    decreases l.len(),
{
    if l.len() > 0 && whitespace_char(l.last()) {
        trim_end_spec(l.drop_last())
    } else {
        l
    }
}

proof fn lemma_trim_end_take(l: Seq<char>, end: int)
    requires
        0 <= end <= l.len(),
        forall|j: int| end <= j < l.len() ==> whitespace_char(l[j]),
        end == 0 || !whitespace_char(l[end - 1]),
    ensures
        trim_end_spec(l) == l.take(end),
    decreases l.len(),
{
    if l.len() > end {
        assert(whitespace_char(l.last()));
        assert(l.drop_last() =~= l.take(l.len() - 1));
        lemma_trim_end_take(l.drop_last(), end);
        assert(l.drop_last().take(end) =~= l.take(end));
    } else {
        assert(l.take(end) =~= l);
    }
}

fn trim_end_chars(line: &Vec<char>) -> (r: Vec<char>)
    ensures
        r@ == trim_end_spec(line@),
{
    let mut end: usize = line.len();
    while end > 0 && is_whitespace_char_at(line, end - 1)
        invariant
            end <= line@.len(),
            forall|j: int| end <= j < line@.len() ==> whitespace_char(line@[j]),
        decreases end,
    {
        end -= 1;
    }
    proof {
        lemma_trim_end_take(line@, end as int);
    }
    slice_chars(line, 0, end)
}

fn is_whitespace_char_at(line: &Vec<char>, i: usize) -> (r: bool)
    requires
        i < line@.len(),
    ensures
        r == whitespace_char(line@[i as int]),
{
    crate::text::is_whitespace_char(line[i])
}

/// Whole-content trailing-whitespace removal: every line is trimmed at its
/// end, the lines are rejoined with the chosen terminator, and a final
/// terminator is kept exactly when the input ended with a newline.
pub open spec fn remove_trailing_spec(s: Seq<char>, e: LineEnding) -> Seq<char> {
    let joined = join(lines_of(s).map_values(|l: Seq<char>| trim_end_spec(l)), ending_seq(e));
    if s.len() > 0 && s.last() == '\n' {
        joined + ending_seq(e)
    } else {
        joined
    }
}

/// Remove trailing whitespace from every line, rejoining the lines with the
/// chosen line terminator; the presence of a final newline is preserved.
pub fn remove_trailing_whitespaces(input: &str, line_ending: &LineEnding) -> (r: String)
    ensures
        r@ == remove_trailing_spec(input@, *line_ending),
{
    let chars = str_chars(input);
    let lines = split_lines(&chars);
    let ghost f = |l: Seq<char>| trim_end_spec(l);
    let mut trimmed: Vec<Vec<char>> = Vec::new();
    let mut i: usize = 0;
    proof {
        assert(line_views(trimmed@) =~= lines_of(input@).take(0).map_values(f));
    }
    while i < lines.len()
        invariant
            i <= lines@.len(),
            line_views(lines@) == lines_of(input@),
            line_views(trimmed@) == lines_of(input@).take(i as int).map_values(f),
            f == (|l: Seq<char>| trim_end_spec(l)),
        decreases lines@.len() - i,
    {
        let t = trim_end_chars(&lines[i]);
        proof {
            let lo = lines_of(input@);
            assert(t@ == f(lo[i as int]));
            assert(line_views(trimmed@.push(t)) =~= line_views(trimmed@).push(t@));
            assert(lo.take(i + 1).map_values(f) =~= lo.take(i as int).map_values(f).push(
                f(lo[i as int]),
            ));
        }
        trimmed.push(t);
        i += 1;
    }
    proof {
        let lo = lines_of(input@);
        assert(lo.take(lo.len() as int) =~= lo);
    }
    let sep = ending_chars(line_ending);
    let mut out = join_chars(&trimmed, &sep);
    if chars.len() > 0 && chars[chars.len() - 1] == '\n' {
        push_chars(&mut out, &sep);
    }
    chars_to_string(&out)
}

/// A trimmed line is no longer than the line, never ends in whitespace, and
/// adds no characters of its own.
pub proof fn lemma_trim_end_props(l: Seq<char>)
    ensures
        trim_end_spec(l).len() <= l.len(),
        trim_end_spec(l).len() > 0 ==> !whitespace_char(trim_end_spec(l).last()),
        forall|c: char| #[trigger] trim_end_spec(l).contains(c) ==> l.contains(c),
    decreases l.len(),
{
    if l.len() > 0 && whitespace_char(l.last()) {
        let d = l.drop_last();
        lemma_trim_end_props(d);
        assert forall|c: char| #[trigger] trim_end_spec(l).contains(c) implies l.contains(c) by {
            assert(trim_end_spec(d).contains(c));
            assert(d.contains(c));
            let j = choose|j: int| 0 <= j < d.len() && d[j] == c;
            assert(l[j] == c);
        }
    }
}

/// Every character of a tab-expanded line is a space or a non-tab character
/// of the line.
pub proof fn lemma_to_spaces_chars(l: Seq<char>, width: nat, col: nat)
    ensures
        forall|c: char|
            #[trigger] to_spaces_rec(l, width, col).contains(c) ==> c == ' ' || (l.contains(c) && c
                != '\t'),
    decreases l.len(),
{
    if l.len() > 0 {
        let d = l.drop_first();
        let out = to_spaces_rec(l, width, col);
        if l[0] == '\t' {
            lemma_to_spaces_chars(d, width, 0);
            let part = Seq::new((width - col) as nat, |i: int| ' ');
            let rest = to_spaces_rec(d, width, 0);
            assert forall|c: char| #[trigger] out.contains(c) implies c == ' ' || (l.contains(c)
                && c != '\t') by {
                let j = choose|j: int| 0 <= j < out.len() && out[j] == c;
                if j < part.len() {
                    assert(part[j] == ' ');
                } else {
                    assert(rest[j - part.len()] == c);
                    assert(rest.contains(c));
                    if c != ' ' {
                        let m = choose|m: int| 0 <= m < d.len() && d[m] == c;
                        assert(l[m + 1] == c);
                    }
                }
            }
        } else {
            lemma_to_spaces_chars(d, width, next_column(col, width));
            let rest = to_spaces_rec(d, width, next_column(col, width));
            assert forall|c: char| #[trigger] out.contains(c) implies c == ' ' || (l.contains(c)
                && c != '\t') by {
                let j = choose|j: int| 0 <= j < out.len() && out[j] == c;
                if j == 0 {
                    assert(l[0] == c);
                    assert(l.contains(c));
                } else {
                    assert(rest[j - 1] == c);
                    assert(rest.contains(c));
                    if c != ' ' {
                        let m = choose|m: int| 0 <= m < d.len() && d[m] == c;
                        assert(l[m + 1] == c);
                    }
                }
            }
        }
    }
}

/// Tab expansion of a non-empty line is non-empty.
pub proof fn lemma_to_spaces_nonempty(l: Seq<char>, width: nat, col: nat)
    requires
        1 <= width,
        col < width,
        l.len() > 0,
    ensures
        to_spaces_rec(l, width, col).len() > 0,
{
    if l[0] == '\t' {
        assert(Seq::new((width - col) as nat, |i: int| ' ').len() >= 1);
    }
}

/// Tab expansion of a line that does not end in a tab keeps its last
/// character.
pub proof fn lemma_to_spaces_last(l: Seq<char>, width: nat, col: nat)
    requires
        l.len() > 0,
        l.last() != '\t',
    ensures
        to_spaces_rec(l, width, col).len() > 0,
        to_spaces_rec(l, width, col).last() == l.last(),
    decreases l.len(),
{
    let d = l.drop_first();
    if l.len() == 1 {
        assert(to_spaces_rec(d, width, next_column(col, width)) =~= Seq::<char>::empty());
        assert(to_spaces_rec(l, width, col) =~= seq![l[0]]);
    } else {
        assert(d.last() == l.last());
        if l[0] == '\t' {
            lemma_to_spaces_last(d, width, 0);
        } else {
            lemma_to_spaces_last(d, width, next_column(col, width));
        }
    }
}

/// The lines of a join of line-feed-free lines with the Windows terminator
/// are those lines themselves: with a trailing terminator they are recovered
/// exactly; without one, a final empty line is not recovered.
proof fn lemma_lines_of_join_crlf(ls: Seq<Seq<char>>)
    requires
        ls.len() > 0,
        forall|k: int, j: int|
            0 <= k < ls.len() && 0 <= j < ls[k].len() ==> #[trigger] ls[k][j] != '\n',
    ensures
        lines_of(join(ls, seq!['\r', '\n']) + seq!['\r', '\n']) == ls,
        lines_of(join(ls, seq!['\r', '\n'])) == if ls.last().len() == 0 {
            ls.drop_last()
        } else {
            ls
        },
    decreases ls.len(),
{
    let sep = seq!['\r', '\n'];
    let h = ls[0];
    if ls.len() == 1 {
        let w = h + sep;
        assert(join(ls, sep) == h);
        assert forall|j: int| 0 <= j < h.len() + 1 implies w[j] != '\n' by {
            if j < h.len() {
                assert(w[j] == ls[0][j]);
            } else {
                assert(w[j] == '\r');
            }
        }
        assert(w[h.len() as int + 1] == '\n');
        lemma_find_newline_at(w, h.len() as int + 1);
        assert(w.take(h.len() as int + 1) =~= h + seq!['\r']);
        assert((h + seq!['\r']).last() == '\r');
        assert((h + seq!['\r']).drop_last() =~= h);
        assert(strip_tail_cr(h + seq!['\r']) == h);
        assert(w.skip(h.len() as int + 2) =~= Seq::<char>::empty());
        assert(lines_of(w.skip(h.len() as int + 2)) == Seq::<Seq<char>>::empty());
        assert(lines_of(w) == seq![strip_tail_cr(w.take(h.len() as int + 1))] + lines_of(
            w.skip(h.len() as int + 2),
        ));
        assert(lines_of(w) =~= seq![h]);
        assert(seq![h] =~= ls);
        if h.len() == 0 {
            assert(lines_of(join(ls, sep)) =~= ls.drop_last());
        } else {
            lemma_find_newline_none(h);
            assert(lines_of(h) =~= seq![h]);
            assert(seq![h] =~= ls);
        }
    } else {
        let d = ls.drop_first();
        lemma_lines_of_join_crlf(d);
        let w = join(ls, sep);
        assert(w == h + sep + join(d, sep));
        let wt = w + sep;
        assert forall|j: int| 0 <= j < h.len() + 1 implies w[j] != '\n' && wt[j] != '\n' by {
            if j < h.len() {
                assert(w[j] == ls[0][j]);
                assert(wt[j] == ls[0][j]);
            } else {
                assert(w[j] == '\r');
                assert(wt[j] == '\r');
            }
        }
        assert(w[h.len() as int + 1] == '\n');
        assert(wt[h.len() as int + 1] == '\n');
        lemma_find_newline_at(w, h.len() as int + 1);
        lemma_find_newline_at(wt, h.len() as int + 1);
        assert(w.take(h.len() as int + 1) =~= h + seq!['\r']);
        assert(wt.take(h.len() as int + 1) =~= h + seq!['\r']);
        assert((h + seq!['\r']).last() == '\r');
        assert((h + seq!['\r']).drop_last() =~= h);
        assert(strip_tail_cr(h + seq!['\r']) == h);
        assert(w.skip(h.len() as int + 2) =~= join(d, sep));
        assert(wt.skip(h.len() as int + 2) =~= join(d, sep) + sep);
        assert(w.len() > 0);
        assert(lines_of(w) == seq![h] + lines_of(join(d, sep)));
        assert(wt.len() > 0);
        assert(lines_of(wt) == seq![h] + lines_of(join(d, sep) + sep));
        assert(seq![h] + d =~= ls);
        if d.last().len() == 0 {
            assert(ls.last().len() == 0);
            assert(seq![h] + d.drop_last() =~= ls.drop_last());
        } else {
            assert(ls.last().len() != 0);
        }
    }
}

/// The lines of a join of line-feed-free lines with the chosen terminator,
/// provided (for the line-feed terminator) no line ends in a carriage
/// return.
proof fn lemma_lines_of_join_ending(ls: Seq<Seq<char>>, e: LineEnding)
    requires
        ls.len() > 0,
        forall|k: int, j: int|
            0 <= k < ls.len() && 0 <= j < ls[k].len() ==> #[trigger] ls[k][j] != '\n',
        e == LineEnding::LF ==> forall|k: int|
            0 <= k < ls.len() && ls[k].len() > 0 ==> #[trigger] ls[k].last() != '\r',
    ensures
        lines_of(join(ls, ending_seq(e)) + ending_seq(e)) == ls,
        lines_of(join(ls, ending_seq(e))) == if ls.last().len() == 0 {
            ls.drop_last()
        } else {
            ls
        },
{
    match e {
        LineEnding::LF => {
            assert(ending_seq(e) =~= seq!['\n']);
            lemma_lines_of_join_nl(ls);
        },
        LineEnding::CRLF => {
            assert(ending_seq(e) =~= seq!['\r', '\n']);
            lemma_lines_of_join_crlf(ls);
        },
    }
}

/// Tab expansion leaves a tab-free line unchanged.
pub proof fn lemma_to_spaces_id(l: Seq<char>, width: nat, col: nat)
    requires
        forall|j: int| 0 <= j < l.len() ==> #[trigger] l[j] != '\t',
    ensures
        to_spaces_rec(l, width, col) == l,
    decreases l.len(),
{
    if l.len() > 0 {
        let d = l.drop_first();
        assert(forall|j: int| 0 <= j < d.len() ==> #[trigger] d[j] == l[j + 1]);
        lemma_to_spaces_id(d, width, next_column(col, width));
        assert(seq![l[0]] + d =~= l);
    }
}

/// Tab conversion keeps a final newline exactly when the input had one.
pub proof fn lemma_space_tabs_final_newline(c: Seq<char>, e: LineEnding)
    ensures
        (space_tabs_spec(c, TabStrategy::Untabify, e).len() > 0 && space_tabs_spec(
            c,
            TabStrategy::Untabify,
            e,
        ).last() == '\n') <==> (c.len() > 0 && c.last() == '\n'),
{
    let f = |l: Seq<char>| converted_line(l, TabStrategy::Untabify, 4);
    let lo = lines_of(c);
    let conv = lo.map_values(f);
    let sep = ending_seq(e);
    let joined = join(conv, sep);
    let n = space_tabs_spec(c, TabStrategy::Untabify, e);
    assert(sep.last() == '\n');
    if c.len() > 0 && c.last() == '\n' {
        assert(n == joined + sep);
        assert(n.len() > 0 && n.last() == '\n');
    } else if c.len() == 0 {
        assert(lo == Seq::<Seq<char>>::empty());
        assert(conv =~= Seq::<Seq<char>>::empty());
        assert(joined == Seq::<char>::empty());
        assert(n.len() == 0);
    } else {
        lemma_last_line_nonempty(c);
        assert(conv.last() == f(lo.last()));
        lemma_to_spaces_nonempty(lo.last(), 4, 0);
        assert(conv.last().len() > 0);
        lemma_join_last(conv, sep);
        assert(n == joined);
        assert(n.len() > 0 && n.last() == conv.last().last());
        let ch = conv.last().last();
        lemma_to_spaces_chars(lo.last(), 4, 0);
        lemma_lines_no_newline(c);
        assert(conv.last().contains(ch));
        assert(ch != '\n') by {
            if ch != ' ' {
                assert(lo.last().contains(ch));
                let m = choose|m: int| 0 <= m < lo.last().len() && lo.last()[m] == ch;
                assert(lo[lo.len() - 1][m] != '\n');
            }
        }
    }
}

/// Tab conversion is idempotent on content whose carriage returns all belong
/// to Windows line breaks: applied to its own output it returns it
/// unchanged, for either terminator.
pub proof fn lemma_space_tabs_idempotent(c: Seq<char>, e: LineEnding)
    requires
        forall|j: int|
            0 <= j < c.len() && #[trigger] c[j] == '\r' ==> j + 1 < c.len() && c[j + 1] == '\n',
    ensures
        space_tabs_spec(space_tabs_spec(c, TabStrategy::Untabify, e), TabStrategy::Untabify, e)
            == space_tabs_spec(c, TabStrategy::Untabify, e),
{
    let f = |l: Seq<char>| converted_line(l, TabStrategy::Untabify, 4);
    let lo = lines_of(c);
    let conv = lo.map_values(f);
    let sep = ending_seq(e);
    let y = space_tabs_spec(c, TabStrategy::Untabify, e);
    if c.len() == 0 {
        assert(lo == Seq::<Seq<char>>::empty());
        assert(conv =~= Seq::<Seq<char>>::empty());
        assert(y =~= Seq::<char>::empty());
        assert(lines_of(y) == Seq::<Seq<char>>::empty());
        assert(lines_of(y).map_values(f) =~= Seq::<Seq<char>>::empty());
        assert(space_tabs_spec(y, TabStrategy::Untabify, e) == Seq::<char>::empty());
    } else {
        assert(lo.len() > 0);
        lemma_lines_no_newline(c);
        lemma_lines_cr_free(c);
        assert forall|k: int, j: int|
            0 <= k < conv.len() && 0 <= j < conv[k].len() implies #[trigger] conv[k][j] != '\n'
            && conv[k][j] != '\r' && conv[k][j] != '\t' by {
            assert(conv[k] == to_spaces_spec(lo[k], 4));
            lemma_to_spaces_chars(lo[k], 4, 0);
            let ch = conv[k][j];
            assert(conv[k].contains(ch));
            if ch != ' ' {
                assert(lo[k].contains(ch) && ch != '\t');
                let m = choose|m: int| 0 <= m < lo[k].len() && lo[k][m] == ch;
                assert(lo[k][m] != '\n');
                assert(lo[k][m] != '\r');
            }
        }
        lemma_lines_of_join_ending(conv, e);
        lemma_space_tabs_final_newline(c, e);
        if c.last() == '\n' {
            assert(lines_of(y) == conv);
            assert(y.len() > 0 && y.last() == '\n');
        } else {
            lemma_last_line_nonempty(c);
            assert(conv.last() == f(lo.last()));
            lemma_to_spaces_nonempty(lo.last(), 4, 0);
            assert(conv.last().len() > 0);
            assert(lines_of(y) == conv);
            assert(!(y.len() > 0 && y.last() == '\n'));
        }
        let conv2 = lines_of(y).map_values(f);
        assert forall|k: int| 0 <= k < conv.len() implies #[trigger] conv2[k] == conv[k] by {
            assert(conv2[k] == f(conv[k]));
            lemma_to_spaces_id(conv[k], 4, 0);
        }
        assert(conv2 =~= conv);
        assert(space_tabs_spec(y, TabStrategy::Untabify, e) == y);
    }
}

/// Trailing-whitespace removal is idempotent: applied to its own output it
/// returns it unchanged, for either terminator.
pub proof fn lemma_remove_trailing_idempotent(s: Seq<char>, e: LineEnding)
    ensures
        remove_trailing_spec(remove_trailing_spec(s, e), e) == remove_trailing_spec(s, e),
{
    let g = |l: Seq<char>| trim_end_spec(l);
    let lo = lines_of(s);
    let trimmed = lo.map_values(g);
    let sep = ending_seq(e);
    let y = remove_trailing_spec(s, e);
    assert(sep.last() == '\n');
    if s.len() == 0 {
        assert(lo == Seq::<Seq<char>>::empty());
        assert(trimmed =~= Seq::<Seq<char>>::empty());
        assert(y =~= Seq::<char>::empty());
        assert(lines_of(y) == Seq::<Seq<char>>::empty());
        assert(lines_of(y).map_values(g) =~= Seq::<Seq<char>>::empty());
        assert(remove_trailing_spec(y, e) == Seq::<char>::empty());
    } else {
        assert(lo.len() > 0);
        lemma_lines_no_newline(s);
        assert forall|k: int, j: int|
            0 <= k < trimmed.len() && 0 <= j < trimmed[k].len() implies #[trigger] trimmed[k][j]
            != '\n' by {
            lemma_trim_end_props(lo[k]);
            assert(trimmed[k] == trim_end_spec(lo[k]));
            let ch = trimmed[k][j];
            assert(trimmed[k].contains(ch));
            assert(lo[k].contains(ch));
            let m = choose|m: int| 0 <= m < lo[k].len() && lo[k][m] == ch;
            assert(lo[k][m] != '\n');
        }
        assert forall|k: int| 0 <= k < trimmed.len() && trimmed[k].len() > 0 implies #[trigger] trimmed[k].last()
            != '\r' by {
            lemma_trim_end_props(lo[k]);
            assert(trimmed[k] == trim_end_spec(lo[k]));
            assert(!whitespace_char(trimmed[k].last()));
        }
        assert forall|k: int| 0 <= k < trimmed.len() implies #[trigger] g(trimmed[k])
            == trimmed[k] by {
            lemma_trim_end_props(lo[k]);
            assert(trimmed[k] == trim_end_spec(lo[k]));
            if trimmed[k].len() > 0 {
                assert(!whitespace_char(trimmed[k].last()));
            }
        }
        lemma_lines_of_join_ending(trimmed, e);
        if s.last() == '\n' {
            assert(y == join(trimmed, sep) + sep);
            assert(lines_of(y) == trimmed);
            assert(y.len() > 0 && y.last() == '\n');
            let trimmed2 = lines_of(y).map_values(g);
            assert(trimmed2 =~= trimmed);
            assert(remove_trailing_spec(y, e) == join(trimmed, sep) + sep);
        } else {
            assert(y == join(trimmed, sep));
            if trimmed.last().len() == 0 {
                if trimmed.len() == 1 {
                    assert(y == trimmed[0]);
                    assert(y =~= Seq::<char>::empty());
                    assert(lines_of(y) == Seq::<Seq<char>>::empty());
                    assert(lines_of(y).map_values(g) =~= Seq::<Seq<char>>::empty());
                    assert(remove_trailing_spec(y, e) == Seq::<char>::empty());
                } else {
                    assert(lines_of(y) == trimmed.drop_last());
                    assert(trimmed.drop_last().push(trimmed.last()) =~= trimmed);
                    lemma_join_push(trimmed.drop_last(), trimmed.last(), sep);
                    assert(join(trimmed, sep) == join(trimmed.drop_last(), sep) + sep
                        + trimmed.last());
                    assert(join(trimmed.drop_last(), sep) + sep + trimmed.last() =~= join(
                        trimmed.drop_last(),
                        sep,
                    ) + sep);
                    assert(y.len() > 0 && y.last() == '\n');
                    let trimmed2 = lines_of(y).map_values(g);
                    assert forall|k: int| 0 <= k < trimmed2.len() implies #[trigger] trimmed2[k]
                        == trimmed.drop_last()[k] by {
                        assert(trimmed2[k] == g(trimmed.drop_last()[k]));
                        assert(trimmed.drop_last()[k] == trimmed[k]);
                    }
                    assert(trimmed2 =~= trimmed.drop_last());
                    assert(remove_trailing_spec(y, e) == join(trimmed.drop_last(), sep) + sep);
                    assert(remove_trailing_spec(y, e) =~= y);
                }
            } else {
                assert(lines_of(y) == trimmed);
                lemma_join_last(trimmed, sep);
                assert(y.len() > 0 && y.last() == trimmed.last().last());
                assert(trimmed.last() == g(lo.last()));
                lemma_trim_end_props(lo[lo.len() - 1]);
                assert(!whitespace_char(trimmed.last().last()));
                assert(y.last() != '\n');
                let trimmed2 = lines_of(y).map_values(g);
                assert(trimmed2 =~= trimmed);
                assert(remove_trailing_spec(y, e) == join(trimmed, sep));
            }
        }
    }
}

/// The content starts with a run of one or more carriage returns that is
/// directly followed by a line feed; such a run belongs to the line break.
pub open spec fn cr_run_to_lf(s: Seq<char>) -> bool
    decreases s.len(),
{
    s.len() >= 2 && s[0] == '\r' && (s[1] == '\n' || (s[1] == '\r' && cr_run_to_lf(s.drop_first())))
}

/// Line endings normalized to the target uniformly: every line feed, with
/// the run of carriage returns directly before it, becomes one target
/// terminator; every other character is kept.
pub open spec fn normalize_endings_spec(s: Seq<char>, e: LineEnding) -> Seq<char>
    decreases s.len(),
{
    if s.len() == 0 {
        Seq::empty()
    } else if cr_run_to_lf(s) {
        normalize_endings_spec(s.skip(1), e)
    } else if s[0] == '\n' {
        ending_seq(e) + normalize_endings_spec(s.skip(1), e)
    } else {
        seq![s[0]] + normalize_endings_spec(s.skip(1), e)
    }
}

proof fn lemma_cr_run_to_lf_intro(s: Seq<char>, m: int)
    requires
        1 <= m < s.len(),
        s[m] == '\n',
        forall|k: int| 0 <= k < m ==> s[k] == '\r',
    ensures
        cr_run_to_lf(s),
    decreases m,
{
    if m > 1 {
        lemma_cr_run_to_lf_intro(s.drop_first(), m - 1);
    }
}

proof fn lemma_cr_run_to_lf_elim(s: Seq<char>)
    requires
        cr_run_to_lf(s),
    ensures
        exists|m: int|
            1 <= m < s.len() && #[trigger] s[m] == '\n' && forall|k: int| 0 <= k < m ==> s[k]
                == '\r',
    decreases s.len(),
{
    if s[1] == '\n' {
        assert(s[1] == '\n' && forall|k: int| 0 <= k < 1 ==> s[k] == '\r');
    } else {
        lemma_cr_run_to_lf_elim(s.drop_first());
        let t = s.drop_first();
        let m = choose|m: int|
            1 <= m < t.len() && #[trigger] t[m] == '\n' && forall|k: int| 0 <= k < m ==> t[k]
                == '\r';
        assert(s[m + 1] == '\n');
        assert(forall|k: int| 1 <= k < m + 1 ==> s[k] == t[k - 1]);
    }
}

fn cr_run_to_lf_at(v: &Vec<char>, i: usize) -> (r: bool)
    requires
        i < v@.len(),
    ensures
        r == cr_run_to_lf(v@.skip(i as int)),
{
    let ghost t = v@.skip(i as int);
    let mut j: usize = i;
    while j < v.len() && v[j] == '\r'
        invariant
            i <= j <= v@.len(),
            forall|k: int| i <= k < j ==> v@[k] == '\r',
        decreases v@.len() - j,
    {
        j += 1;
    }
    if j > i && j < v.len() && v[j] == '\n' {
        proof {
            assert(t[j - i as int] == '\n');
            assert(forall|k: int| 0 <= k < j - i as int ==> t[k] == '\r');
            lemma_cr_run_to_lf_intro(t, j - i as int);
        }
        true
    } else {
        proof {
            if cr_run_to_lf(t) {
                lemma_cr_run_to_lf_elim(t);
                let m = choose|m: int|
                    1 <= m < t.len() && #[trigger] t[m] == '\n' && forall|k: int|
                        0 <= k < m ==> t[k] == '\r';
                assert(v@[i + m] == '\n');
                if i + m < j {
                    assert(v@[i + m] == '\r');
                } else if i + m == j {
                    assert(j > i && j < v@.len());
                } else {
                    assert(t[j - i as int] == '\r');
                    assert(j == v@.len() || v@[j as int] != '\r');
                    assert(j > i || t[0] == '\r');
                }
            }
        }
        false
    }
}

fn normalize_endings_chars(v: &Vec<char>, e: &LineEnding) -> (r: Vec<char>)
    ensures
        r@ == normalize_endings_spec(v@, *e),
{
    let sep = ending_chars(e);
    let mut out: Vec<char> = Vec::new();
    let mut i: usize = 0;
    proof {
        assert(v@.skip(0) =~= v@);
    }
    while i < v.len()
        invariant
            i <= v@.len(),
            sep@ == ending_seq(*e),
            normalize_endings_spec(v@, *e) == out@ + normalize_endings_spec(
                v@.skip(i as int),
                *e,
            ),
        decreases v@.len() - i,
    {
        let c = v[i];
        let ghost t = v@.skip(i as int);
        proof {
            assert(t[0] == v@[i as int]);
            assert(t.skip(1) =~= v@.skip(i + 1));
        }
        if cr_run_to_lf_at(v, i) {
            // this carriage return belongs to a line break and is dropped
        } else if c == '\n' {
            push_chars(&mut out, &sep);
            proof {
                assert(out@ + normalize_endings_spec(v@.skip(i + 1), *e) =~= out@.subrange(
                    0,
                    out@.len() - sep@.len(),
                ) + (ending_seq(*e) + normalize_endings_spec(v@.skip(i + 1), *e)));
            }
        } else {
            out.push(c);
            proof {
                assert(out@ + normalize_endings_spec(v@.skip(i + 1), *e) =~= out@.drop_last() + (
                seq![t[0]] + normalize_endings_spec(v@.skip(i + 1), *e)));
            }
        }
        i += 1;
    }
    proof {
        assert(v@.skip(v@.len() as int) =~= Seq::<char>::empty());
        assert(out@ + Seq::<char>::empty() =~= out@);
    }
    out
}

/// Normalize every line ending to the chosen target, uniformly across the
/// whole content.
pub fn normalize_line_endings(input: &str, line_ending: &LineEnding) -> (r: String)
    ensures
        r@ == normalize_endings_spec(input@, *line_ending),
{
    let chars = str_chars(input);
    let out = normalize_endings_chars(&chars, line_ending);
    chars_to_string(&out)
}

/// Replace every Windows line ending with a line feed, exhaustively: the
/// result contains no Windows line ending.
pub fn replace_win_line_endings(input: &str) -> (r: String)
    ensures
        r@ == normalize_endings_spec(input@, LineEnding::LF),
{
    normalize_line_endings(input, &LineEnding::LF)
}

proof fn lemma_normalize_endings_prepend_ending(t: Seq<char>, e: LineEnding)
    ensures
        normalize_endings_spec(ending_seq(e) + t, e) == ending_seq(e) + normalize_endings_spec(
            t,
            e,
        ),
{
    match e {
        LineEnding::LF => {
            let s = ending_seq(e) + t;
            assert(s[0] == '\n');
            assert(!cr_run_to_lf(s));
            assert(s.skip(1) =~= t);
        },
        LineEnding::CRLF => {
            let s = ending_seq(e) + t;
            assert(s[0] == '\r' && s[1] == '\n');
            assert(cr_run_to_lf(s));
            let u = s.skip(1);
            assert(u[0] == '\n');
            assert(!cr_run_to_lf(u));
            assert(u.skip(1) =~= t);
            assert(s.skip(1) =~= u);
            assert(normalize_endings_spec(s, e) == normalize_endings_spec(u, e));
        },
    }
}

/// A carriage return that is kept (it is not part of a line break) is still
/// not part of a line break in the normalized output.
proof fn lemma_normalize_endings_kept_cr(s: Seq<char>, e: LineEnding)
    requires
        s.len() > 0,
        s[0] == '\r',
        !cr_run_to_lf(s),
    ensures
        normalize_endings_spec(s, e).len() > 0,
        normalize_endings_spec(s, e)[0] == '\r',
        !cr_run_to_lf(normalize_endings_spec(s, e)),
    decreases s.len(),
{
    let n = normalize_endings_spec(s, e);
    let t = s.skip(1);
    assert(s.drop_first() =~= t);
    assert(n == seq![s[0]] + normalize_endings_spec(t, e));
    if t.len() == 0 {
        assert(normalize_endings_spec(t, e) == Seq::<char>::empty());
        assert(n =~= seq!['\r']);
    } else if t[0] == '\n' {
        assert(cr_run_to_lf(s));
    } else if t[0] == '\r' {
        assert(!cr_run_to_lf(t));
        lemma_normalize_endings_kept_cr(t, e);
        let nt = normalize_endings_spec(t, e);
        assert(n.drop_first() =~= nt);
        assert(n[1] == '\r');
    } else {
        assert(!cr_run_to_lf(t));
        assert(normalize_endings_spec(t, e) == seq![t[0]] + normalize_endings_spec(t.skip(1), e));
        assert(n[1] == t[0]);
        assert(n[1] != '\n' && n[1] != '\r');
    }
}

/// Normalizing line endings is idempotent: applied to its own output it
/// returns it unchanged, for either target.
pub proof fn lemma_normalize_endings_idempotent(s: Seq<char>, e: LineEnding)
    ensures
        normalize_endings_spec(normalize_endings_spec(s, e), e) == normalize_endings_spec(s, e),
    decreases s.len(),
{
    if s.len() == 0 {
    } else if cr_run_to_lf(s) {
        lemma_normalize_endings_idempotent(s.skip(1), e);
    } else if s[0] == '\n' {
        lemma_normalize_endings_idempotent(s.skip(1), e);
        lemma_normalize_endings_prepend_ending(normalize_endings_spec(s.skip(1), e), e);
    } else {
        lemma_normalize_endings_idempotent(s.skip(1), e);
        let n1 = normalize_endings_spec(s.skip(1), e);
        let n = seq![s[0]] + n1;
        assert(n == normalize_endings_spec(s, e));
        if s[0] == '\r' {
            lemma_normalize_endings_kept_cr(s, e);
            assert(!cr_run_to_lf(n));
        } else {
            assert(!cr_run_to_lf(n));
        }
        assert(n[0] != '\n');
        assert(n.skip(1) =~= n1);
        assert(normalize_endings_spec(n, e) == seq![n[0]] + normalize_endings_spec(n1, e));
    }
}

/// With the line feed as the target, the normalized output contains no
/// Windows line-ending sequence at all.
pub proof fn lemma_normalize_endings_lf_exhaustive(s: Seq<char>)
    ensures
        forall|j: int|
            0 <= j && j + 1 < normalize_endings_spec(s, LineEnding::LF).len() ==> !(
            #[trigger] normalize_endings_spec(s, LineEnding::LF)[j] == '\r'
                && normalize_endings_spec(s, LineEnding::LF)[j + 1] == '\n'),
    decreases s.len(),
{
    let e = LineEnding::LF;
    let n = normalize_endings_spec(s, e);
    if s.len() == 0 {
    } else if cr_run_to_lf(s) {
        lemma_normalize_endings_lf_exhaustive(s.skip(1));
        assert(n == normalize_endings_spec(s.skip(1), e));
    } else {
        lemma_normalize_endings_lf_exhaustive(s.skip(1));
        let n1 = normalize_endings_spec(s.skip(1), e);
        let c = if s[0] == '\n' {
            '\n'
        } else {
            s[0]
        };
        assert(n == seq![c] + n1) by {
            if s[0] == '\n' {
                assert(ending_seq(e) =~= seq!['\n']);
            }
        }
        if c == '\r' {
            lemma_normalize_endings_kept_cr(s, e);
        }
        assert forall|j: int| 0 <= j && j + 1 < n.len() implies !(#[trigger] n[j] == '\r' && n[j
            + 1] == '\n') by {
            if j == 0 {
                if n[0] == '\r' && n[1] == '\n' {
                    assert(c == '\r');
                    assert(cr_run_to_lf(n));
                    assert(!cr_run_to_lf(n));
                }
            } else {
                assert(n[j] == n1[j - 1] && n[j + 1] == n1[j]);
                assert(!(n1[j - 1] == '\r' && n1[j] == '\n'));
            }
        }
    }
}

/// Every carriage return directly precedes a line feed: the only carriage
/// returns in the content are those of ordinary Windows line breaks.
pub open spec fn proper_cr(s: Seq<char>) -> bool {
    forall|j: int| 0 <= j < s.len() && #[trigger] s[j] == '\r' ==> j + 1 < s.len() && s[j + 1] == '\n'
}

/// On carriage-return-free content, normalizing to line feeds is the
/// identity.
pub proof fn lemma_normalize_lf_crfree_id(s: Seq<char>)
    requires
        forall|j: int| 0 <= j < s.len() ==> #[trigger] s[j] != '\r',
    ensures
        normalize_endings_spec(s, LineEnding::LF) == s,
    decreases s.len(),
{
    let e = LineEnding::LF;
    if s.len() > 0 {
        let t = s.skip(1);
        assert(forall|j: int| 0 <= j < t.len() ==> #[trigger] t[j] == s[j + 1]);
        lemma_normalize_lf_crfree_id(t);
        assert(!cr_run_to_lf(s));
        if s[0] == '\n' {
            assert(ending_seq(e) =~= seq!['\n']);
            assert(seq!['\n'] + t =~= s);
        } else {
            assert(seq![s[0]] + t =~= s);
        }
    }
}

/// Normalizing to line feeds at the first line break: the content before it,
/// without a trailing carriage return, then a line feed, then the normalized
/// rest.
proof fn lemma_normalize_lf_split(s: Seq<char>, i: int)
    requires
        proper_cr(s),
        0 <= i < s.len(),
        s[i] == '\n',
        forall|j: int| 0 <= j < i ==> s[j] != '\n',
    ensures
        normalize_endings_spec(s, LineEnding::LF) == strip_tail_cr(s.take(i)) + seq!['\n']
            + normalize_endings_spec(s.skip(i + 1), LineEnding::LF),
    decreases i,
{
    let e = LineEnding::LF;
    assert(ending_seq(e) =~= seq!['\n']);
    if i == 0 {
        assert(!cr_run_to_lf(s));
        assert(s.take(0) =~= Seq::<char>::empty());
        assert(strip_tail_cr(s.take(0)) + seq!['\n'] + normalize_endings_spec(s.skip(1), e)
            =~= seq!['\n'] + normalize_endings_spec(s.skip(1), e));
    } else if s[0] == '\r' {
        assert(s[1] == '\n');
        assert(i == 1);
        assert(cr_run_to_lf(s));
        let u = s.skip(1);
        assert(u[0] == '\n');
        assert(!cr_run_to_lf(u));
        assert(u.skip(1) =~= s.skip(2));
        assert(normalize_endings_spec(s, e) == normalize_endings_spec(u, e));
        assert(normalize_endings_spec(u, e) == seq!['\n'] + normalize_endings_spec(s.skip(2), e));
        assert(s.take(1) =~= seq!['\r']);
        assert(strip_tail_cr(s.take(1)) =~= Seq::<char>::empty());
        assert(strip_tail_cr(s.take(1)) + seq!['\n'] + normalize_endings_spec(s.skip(2), e)
            =~= seq!['\n'] + normalize_endings_spec(s.skip(2), e));
    } else {
        let t = s.skip(1);
        assert(forall|j: int| 0 <= j < t.len() ==> #[trigger] t[j] == s[j + 1]);
        assert(proper_cr(t)) by {
            assert forall|j: int| 0 <= j < t.len() && #[trigger] t[j] == '\r' implies j + 1
                < t.len() && t[j + 1] == '\n' by {
                assert(s[j + 1] == '\r');
            }
        }
        assert(t[i - 1] == '\n');
        lemma_normalize_lf_split(t, i - 1);
        assert(!cr_run_to_lf(s)) by {
            if cr_run_to_lf(s) {
                assert(s[0] == '\r');
            }
        }
        assert(normalize_endings_spec(s, e) == seq![s[0]] + normalize_endings_spec(t, e));
        let tp = t.take(i - 1);
        assert(s.take(i) =~= seq![s[0]] + tp);
        assert(t.skip(i) =~= s.skip(i + 1));
        if tp.len() > 0 && tp.last() == '\r' {
            assert(s.take(i).last() == tp.last());
            assert(strip_tail_cr(s.take(i)) =~= seq![s[0]] + strip_tail_cr(tp));
        } else {
            assert(s.take(i).len() > 0);
            assert(s.take(i).last() != '\r') by {
                if tp.len() == 0 {
                    assert(s.take(i).last() == s[0]);
                }
            }
            assert(strip_tail_cr(s.take(i)) =~= seq![s[0]] + strip_tail_cr(tp));
        }
        assert(seq![s[0]] + (strip_tail_cr(tp) + seq!['\n'] + normalize_endings_spec(
            s.skip(i + 1),
            e,
        )) =~= (seq![s[0]] + strip_tail_cr(tp)) + seq!['\n'] + normalize_endings_spec(
            s.skip(i + 1),
            e,
        ));
    }
}

/// On content whose carriage returns all belong to Windows line breaks,
/// normalizing to line feeds leaves the lines unchanged.
pub proof fn lemma_normalize_lf_lines(s: Seq<char>)
    requires
        proper_cr(s),
    ensures
        lines_of(normalize_endings_spec(s, LineEnding::LF)) == lines_of(s),
    decreases s.len(),
{
    let e = LineEnding::LF;
    let n = normalize_endings_spec(s, e);
    if s.len() == 0 {
    } else {
        let i = find_newline(s);
        lemma_find_newline(s);
        if i < 0 {
            assert(forall|j: int| 0 <= j < s.len() ==> #[trigger] s[j] != '\r') by {
                assert forall|j: int| 0 <= j < s.len() implies #[trigger] s[j] != '\r' by {
                    if s[j] == '\r' {
                        assert(s[j + 1] == '\n');
                    }
                }
            }
            lemma_normalize_lf_crfree_id(s);
        } else {
            let rest = s.skip(i + 1);
            assert(proper_cr(rest)) by {
                assert forall|j: int| 0 <= j < rest.len() && #[trigger] rest[j] == '\r' implies j
                    + 1 < rest.len() && rest[j + 1] == '\n' by {
                    assert(s[i + 1 + j] == '\r');
                }
            }
            lemma_normalize_lf_lines(rest);
            lemma_normalize_lf_split(s, i);
            let h = strip_tail_cr(s.take(i));
            let nr = normalize_endings_spec(rest, e);
            assert(n == h + seq!['\n'] + nr);
            assert forall|j: int| 0 <= j < h.len() implies h[j] != '\n' && h[j] != '\r' by {
                assert(h[j] == s[j]);
                if s[j] == '\r' {
                    assert(s[j + 1] == '\n');
                    assert(j + 1 == i);
                    if s.take(i).len() > 0 && s.take(i).last() == '\r' {
                        assert(h =~= s.take(i).drop_last());
                        assert(j < i - 1);
                    } else {
                        assert(s[i - 1] != '\r');
                    }
                    assert(false);
                }
            }
            assert forall|j: int| 0 <= j < h.len() + 1 implies n[j] != '\n' || j == h.len() by {
                if j < h.len() {
                    assert(n[j] == h[j]);
                }
            }
            assert(n[h.len() as int] == '\n');
            lemma_find_newline_at(n, h.len() as int);
            assert(n.take(h.len() as int) =~= h);
            assert(strip_tail_cr(h) == h);
            assert(n.skip(h.len() as int + 1) =~= nr);
            assert(n.len() > 0);
            assert(lines_of(n) == seq![h] + lines_of(nr));
            assert(lines_of(s) == seq![h] + lines_of(rest));
        }
    }
}

/// Every character of the line-feed normalization is a character of the
/// content: the normalization only removes carriage returns.
pub proof fn lemma_normalize_lf_chars(s: Seq<char>)
    ensures
        forall|c: char|
            #[trigger] normalize_endings_spec(s, LineEnding::LF).contains(c) ==> s.contains(c),
    decreases s.len(),
{
    let e = LineEnding::LF;
    let n = normalize_endings_spec(s, e);
    if s.len() > 0 {
        let t = s.skip(1);
        lemma_normalize_lf_chars(t);
        let nt = normalize_endings_spec(t, e);
        assert forall|c: char| #[trigger] n.contains(c) implies s.contains(c) by {
            let h: char = if cr_run_to_lf(s) {
                ' '
            } else if s[0] == '\n' {
                '\n'
            } else {
                s[0]
            };
            if cr_run_to_lf(s) {
                assert(n == nt);
                assert(nt.contains(c));
            } else {
                assert(ending_seq(e) =~= seq!['\n']);
                assert(n == seq![h] + nt);
                let j = choose|j: int| 0 <= j < n.len() && n[j] == c;
                if j == 0 {
                    assert(c == h);
                    assert(s[0] == h || h == '\n');
                    assert(s.contains(s[0]));
                    if h == '\n' && s[0] != '\n' {
                        assert(false);
                    }
                } else {
                    assert(nt[j - 1] == c);
                    assert(nt.contains(c));
                }
            }
            if !s.contains(c) && t.contains(c) {
                let m = choose|m: int| 0 <= m < t.len() && t[m] == c;
                assert(s[m + 1] == c);
            }
        }
    }
}

/// On content whose carriage returns all belong to Windows line breaks,
/// the line-feed normalization leaves no carriage return at all.
pub proof fn lemma_normalize_lf_proper_crfree(s: Seq<char>)
    requires
        proper_cr(s),
    ensures
        forall|j: int|
            0 <= j < normalize_endings_spec(s, LineEnding::LF).len() ==> #[trigger] normalize_endings_spec(
                s,
                LineEnding::LF,
            )[j] != '\r',
    decreases s.len(),
{
    let e = LineEnding::LF;
    let n = normalize_endings_spec(s, e);
    if s.len() > 0 {
        let t = s.skip(1);
        assert(proper_cr(t)) by {
            assert forall|j: int| 0 <= j < t.len() && #[trigger] t[j] == '\r' implies j + 1
                < t.len() && t[j + 1] == '\n' by {
                assert(s[j + 1] == '\r');
            }
        }
        lemma_normalize_lf_proper_crfree(t);
        let nt = normalize_endings_spec(t, e);
        if cr_run_to_lf(s) {
            assert(n == nt);
        } else {
            assert(s[0] != '\r') by {
                if s[0] == '\r' {
                    assert(s[1] == '\n');
                    assert(cr_run_to_lf(s));
                }
            }
            assert(ending_seq(e) =~= seq!['\n']);
            let h: char = if s[0] == '\n' {
                '\n'
            } else {
                s[0]
            };
            assert(n == seq![h] + nt);
            assert forall|j: int| 0 <= j < n.len() implies #[trigger] n[j] != '\r' by {
                if j == 0 {
                    assert(n[0] == h);
                } else {
                    assert(n[j] == nt[j - 1]);
                }
            }
        }
    }
}

/// Normalizing line endings keeps a final newline.
pub proof fn lemma_normalize_endings_keeps_final_newline(s: Seq<char>, e: LineEnding)
    requires
        s.len() > 0,
        s.last() == '\n',
    ensures
        normalize_endings_spec(s, e).len() > 0,
        normalize_endings_spec(s, e).last() == '\n',
    decreases s.len(),
{
    let n = normalize_endings_spec(s, e);
    assert(ending_seq(e).last() == '\n');
    if cr_run_to_lf(s) {
        assert(s.skip(1).len() > 0 && s.skip(1).last() == '\n');
        lemma_normalize_endings_keeps_final_newline(s.skip(1), e);
    } else if s[0] == '\n' {
        if s.len() == 1 {
            assert(s.skip(1) =~= Seq::<char>::empty());
            assert(normalize_endings_spec(s.skip(1), e) == Seq::<char>::empty());
            assert(n =~= ending_seq(e));
        } else {
            assert(s.skip(1).len() > 0 && s.skip(1).last() == '\n');
            lemma_normalize_endings_keeps_final_newline(s.skip(1), e);
        }
    } else {
        assert(s.len() >= 2) by {
            assert(s[0] != '\n');
        }
        assert(s.skip(1).len() > 0 && s.skip(1).last() == '\n');
        lemma_normalize_endings_keeps_final_newline(s.skip(1), e);
    }
}

} // verus!
