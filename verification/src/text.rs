//! Character-level text model shared by the checking and cleaning logic:
//! splitting content into lines the way `str::lines` does, joining lines with
//! a separator, and the character classes the style rules speak about.

use vstd::prelude::*;

verus! {

/// The allow-listed character ranges: printable ASCII and control characters,
/// Latin-1 supplement without control characters and the no-break space,
/// Latin Extended-A and B, box drawing, block elements, geometric shapes.
pub open spec fn allowed_char(c: char) -> bool {
    ||| c as u32 <= 0x7f
    ||| (0xa1 <= c as u32 && c as u32 <= 0xff)
    ||| (0x100 <= c as u32 && c as u32 <= 0x17f)
    ||| (0x180 <= c as u32 && c as u32 <= 0x24f)
    ||| (0x2500 <= c as u32 && c as u32 <= 0x257f)
    ||| (0x2580 <= c as u32 && c as u32 <= 0x259f)
    ||| (0x25a0 <= c as u32 && c as u32 <= 0x25ff)
}

/// Executable form of [`allowed_char`].
pub fn is_allowed_char(c: char) -> (r: bool)
    ensures
        r == allowed_char(c),
{
    let u = c as u32;
    u <= 0x7f || (0xa1 <= u && u <= 0xff) || (0x100 <= u && u <= 0x24f) || (0x2500 <= u && u
        <= 0x25ff)
}

/// The characters that `str::trim_end` removes: the Unicode `White_Space` set.
pub open spec fn whitespace_char(c: char) -> bool {
    ||| c == ' '
    ||| c == '\t'
    ||| c == '\n'
    ||| c == '\u{b}'
    ||| c == '\u{c}'
    ||| c == '\r'
    ||| c == '\u{85}'
    ||| c == '\u{a0}'
    ||| c == '\u{1680}'
    ||| (0x2000 <= c as u32 && c as u32 <= 0x200a)
    ||| c == '\u{2028}'
    ||| c == '\u{2029}'
    ||| c == '\u{202f}'
    ||| c == '\u{205f}'
    ||| c == '\u{3000}'
}

/// Executable form of [`whitespace_char`].
pub fn is_whitespace_char(c: char) -> (r: bool)
    ensures
        r == whitespace_char(c),
{
    let u = c as u32;
    u == 0x20 || u == 0x9 || u == 0xa || u == 0xb || u == 0xc || u == 0xd || u == 0x85 || u == 0xa0
        || u == 0x1680 || (0x2000 <= u && u <= 0x200a) || u == 0x2028 || u == 0x2029 || u == 0x202f
        || u == 0x205f || u == 0x3000
}

/// Index of the first `'\n'` in `s`, or `-1` if there is none.
pub open spec fn find_newline(s: Seq<char>) -> int
    decreases s.len(),
{
    if s.len() == 0 {
        -1
    } else if s[0] == '\n' {
        0
    } else {
        let r = find_newline(s.drop_first());
        if r < 0 {
            -1
        } else {
            r + 1
        }
    }
}

pub proof fn lemma_find_newline(s: Seq<char>)
    ensures
        find_newline(s) >= 0 ==> 0 <= find_newline(s) < s.len() && s[find_newline(s)] == '\n',
        find_newline(s) >= 0 ==> forall|j: int| 0 <= j < find_newline(s) ==> s[j] != '\n',
        find_newline(s) < 0 ==> forall|j: int| 0 <= j < s.len() ==> s[j] != '\n',
    decreases s.len(),
{
    if s.len() > 0 && s[0] != '\n' {
        let t = s.drop_first();
        lemma_find_newline(t);
        assert(forall|j: int| 0 <= j < t.len() ==> t[j] == s[j + 1]);
        if find_newline(t) >= 0 {
            assert(forall|j: int| 0 <= j < find_newline(s) ==> s[j] != '\n') by {
                assert(forall|j: int| 1 <= j < find_newline(s) ==> s[j] == t[j - 1]);
            }
        } else {
            assert(forall|j: int| 0 <= j < s.len() ==> s[j] != '\n') by {
                assert(forall|j: int| 1 <= j < s.len() ==> s[j] == t[j - 1]);
            }
        }
    }
}

pub proof fn lemma_find_newline_at(s: Seq<char>, i: int)
    requires
        0 <= i < s.len(),
        s[i] == '\n',
        forall|j: int| 0 <= j < i ==> s[j] != '\n',
    ensures
        find_newline(s) == i,
    decreases s.len(),
{
    if i > 0 {
        lemma_find_newline_at(s.drop_first(), i - 1);
    }
}

pub proof fn lemma_find_newline_none(s: Seq<char>)
    requires
        forall|j: int| 0 <= j < s.len() ==> s[j] != '\n',
    ensures
        find_newline(s) < 0,
    decreases s.len(),
{
    if s.len() > 0 {
        lemma_find_newline_none(s.drop_first());
    }
}

/// A line as cut out by `str::lines`: the trailing `'\r'` is removed when the
/// line was terminated by `"\r\n"`.
pub open spec fn strip_tail_cr(line: Seq<char>) -> Seq<char> {
    if line.len() > 0 && line.last() == '\r' {
        line.drop_last()
    } else {
        line
    }
}

/// The lines of `s`, exactly as `str::lines` yields them: content is split at
/// each `'\n'`, a `'\r'` directly before the split is dropped, and a final
/// segment without a terminator is still a line.
pub open spec fn lines_of(s: Seq<char>) -> Seq<Seq<char>>
    decreases s.len(),
    via lines_of_decreases
{
    if s.len() == 0 {
        Seq::empty()
    } else {
        let i = find_newline(s);
        if i < 0 {
            seq![s]
        } else {
            seq![strip_tail_cr(s.take(i))] + lines_of(s.skip(i + 1))
        }
    }
}

#[via_fn]
proof fn lines_of_decreases(s: Seq<char>) {
    if s.len() > 0 {
        lemma_find_newline(s);
    }
}

/// `lines` interleaved with `sep`, without a trailing separator.
pub open spec fn join(lines: Seq<Seq<char>>, sep: Seq<char>) -> Seq<char>
    decreases lines.len(),
{
    if lines.len() == 0 {
        Seq::empty()
    } else if lines.len() == 1 {
        lines[0]
    } else {
        lines[0] + sep + join(lines.drop_first(), sep)
    }
}

/// Content has at least as many characters as it has lines.
pub proof fn lemma_lines_of_len(s: Seq<char>)
    ensures
        lines_of(s).len() <= s.len(),
    decreases s.len(),
{
    if s.len() > 0 {
        let i = find_newline(s);
        lemma_find_newline(s);
        if i >= 0 {
            lemma_lines_of_len(s.skip(i + 1));
        }
    }
}

/// No line contains a line feed.
pub proof fn lemma_lines_no_newline(s: Seq<char>)
    ensures
        forall|k: int, j: int|
            0 <= k < lines_of(s).len() && 0 <= j < lines_of(s)[k].len() ==> #[trigger] lines_of(
                s,
            )[k][j] != '\n',
    decreases s.len(),
{
    if s.len() > 0 {
        let i = find_newline(s);
        lemma_find_newline(s);
        if i >= 0 {
            lemma_lines_no_newline(s.skip(i + 1));
            let rest = lines_of(s.skip(i + 1));
            let lo = lines_of(s);
            assert forall|k: int, j: int|
                0 <= k < lo.len() && 0 <= j < lo[k].len() implies #[trigger] lo[k][j] != '\n' by {
                if k == 0 {
                    assert(lo[0] == strip_tail_cr(s.take(i)));
                    assert(lo[0][j] == s.take(i)[j]);
                } else {
                    assert(lo[k] == rest[k - 1]);
                }
            }
        }
    }
}

/// Content that does not end with a newline ends inside its last line, which
/// is therefore non-empty.
pub proof fn lemma_last_line_nonempty(s: Seq<char>)
    requires
        s.len() > 0,
        s.last() != '\n',
    ensures
        lines_of(s).len() > 0,
        lines_of(s).last().len() > 0,
    decreases s.len(),
{
    let i = find_newline(s);
    lemma_find_newline(s);
    if i >= 0 {
        assert(i < s.len() - 1) by {
            assert(s[s.len() - 1] != '\n');
        }
        let t = s.skip(i + 1);
        assert(t.len() > 0 && t.last() == s.last());
        lemma_last_line_nonempty(t);
        assert(lines_of(s).last() == lines_of(t).last());
    }
}

/// Every character of every line is a character of the content.
pub proof fn lemma_line_chars_in_content(s: Seq<char>)
    ensures
        forall|k: int, c: char|
            0 <= k < lines_of(s).len() && #[trigger] lines_of(s)[k].contains(c) ==> s.contains(c),
    decreases s.len(),
{
    if s.len() > 0 {
        let i = find_newline(s);
        lemma_find_newline(s);
        let lo = lines_of(s);
        if i < 0 {
            assert forall|k: int, c: char|
                0 <= k < lo.len() && #[trigger] lo[k].contains(c) implies s.contains(c) by {
                assert(lo[k] == s);
            }
        } else {
            lemma_line_chars_in_content(s.skip(i + 1));
            let rest = lines_of(s.skip(i + 1));
            assert forall|k: int, c: char|
                0 <= k < lo.len() && #[trigger] lo[k].contains(c) implies s.contains(c) by {
                if k == 0 {
                    let l = strip_tail_cr(s.take(i));
                    let j = choose|j: int| 0 <= j < l.len() && l[j] == c;
                    assert(s[j] == c);
                } else {
                    assert(rest[k - 1].contains(c));
                    assert(s.skip(i + 1).contains(c));
                    let t = s.skip(i + 1);
                    let j = choose|j: int| 0 <= j < t.len() && t[j] == c;
                    assert(s[i + 1 + j] == c);
                }
            }
        }
    }
}

/// Every content character other than a line break lies on some line.
pub proof fn lemma_content_chars_in_lines(s: Seq<char>)
    ensures
        forall|j: int|
            0 <= j < s.len() && #[trigger] s[j] != '\n' && s[j] != '\r' ==> exists|k: int|
                0 <= k < lines_of(s).len() && #[trigger] lines_of(s)[k].contains(s[j]),
    decreases s.len(),
{
    if s.len() > 0 {
        let i = find_newline(s);
        lemma_find_newline(s);
        let lo = lines_of(s);
        if i < 0 {
            assert forall|j: int| 0 <= j < s.len() && s[j] != '\n' && s[j] != '\r' implies exists|
                k: int,
            |
                0 <= k < lo.len() && #[trigger] lo[k].contains(s[j]) by {
                assert(lo[0] == s);
                assert(lo[0].contains(s[j]));
            }
        } else {
            lemma_content_chars_in_lines(s.skip(i + 1));
            let rest = lines_of(s.skip(i + 1));
            assert forall|j: int| 0 <= j < s.len() && s[j] != '\n' && s[j] != '\r' implies exists|
                k: int,
            |
                0 <= k < lo.len() && #[trigger] lo[k].contains(s[j]) by {
                let l = strip_tail_cr(s.take(i));
                if j < i {
                    if i >= 1 && s.take(i).last() == '\r' {
                        assert(l =~= s.take(i).drop_last());
                        assert(j < i - 1) by {
                            assert(s[i - 1] == '\r');
                        }
                        assert(l[j] == s[j]);
                    } else {
                        assert(l[j] == s[j]);
                    }
                    assert(lo[0].contains(s[j]));
                } else if j > i {
                    let t = s.skip(i + 1);
                    assert(t[j - i - 1] == s[j]);
                    assert(exists|k: int| 0 <= k < rest.len() && #[trigger] rest[k].contains(t[j - i
                        - 1]));
                    let k = choose|k: int|
                        0 <= k < rest.len() && #[trigger] rest[k].contains(t[j - i - 1]);
                    assert(lo[k + 1].contains(s[j]));
                }
            }
        }
    }
}

/// Every character of a join is a character of some line or of the
/// separator.
pub proof fn lemma_join_chars(ls: Seq<Seq<char>>, sep: Seq<char>)
    ensures
        forall|c: char|
            #[trigger] join(ls, sep).contains(c) ==> sep.contains(c) || exists|k: int|
                0 <= k < ls.len() && #[trigger] ls[k].contains(c),
    decreases ls.len(),
{
    if ls.len() <= 1 {
        assert forall|c: char| #[trigger] join(ls, sep).contains(c) implies sep.contains(c)
            || exists|k: int| 0 <= k < ls.len() && #[trigger] ls[k].contains(c) by {
            if ls.len() == 1 {
                assert(ls[0].contains(c));
            }
        }
    } else {
        lemma_join_chars(ls.drop_first(), sep);
        let d = ls.drop_first();
        assert forall|c: char| #[trigger] join(ls, sep).contains(c) implies sep.contains(c)
            || exists|k: int| 0 <= k < ls.len() && #[trigger] ls[k].contains(c) by {
            let w = join(ls, sep);
            let j = choose|j: int| 0 <= j < w.len() && w[j] == c;
            let h = ls[0];
            if j < h.len() {
                assert(h[j] == c);
                assert(ls[0].contains(c));
            } else if j < h.len() + sep.len() {
                assert(sep[j - h.len()] == c);
            } else {
                assert(join(d, sep)[j - h.len() - sep.len()] == c);
                assert(join(d, sep).contains(c));
                if !sep.contains(c) {
                    let k = choose|k: int| 0 <= k < d.len() && #[trigger] d[k].contains(c);
                    assert(ls[k + 1].contains(c));
                }
            }
        }
    }
}

/// The lines of a join of line-feed-free lines that do not end in a carriage
/// return are those lines themselves: with a trailing separator they are
/// recovered exactly; without one, a final empty line is not recovered.
pub proof fn lemma_lines_of_join_nl(ls: Seq<Seq<char>>)
    requires
        ls.len() > 0,
        forall|k: int, j: int|
            0 <= k < ls.len() && 0 <= j < ls[k].len() ==> #[trigger] ls[k][j] != '\n',
        forall|k: int| 0 <= k < ls.len() && ls[k].len() > 0 ==> #[trigger] ls[k].last() != '\r',
    ensures
        lines_of(join(ls, seq!['\n']) + seq!['\n']) == ls,
        lines_of(join(ls, seq!['\n'])) == if ls.last().len() == 0 {
            ls.drop_last()
        } else {
            ls
        },
    decreases ls.len(),
{
    let sep = seq!['\n'];
    let h = ls[0];
    if ls.len() == 1 {
        let w = h + sep;
        assert(join(ls, sep) == h);
        assert forall|j: int| 0 <= j < h.len() implies w[j] != '\n' by {
            assert(w[j] == ls[0][j]);
        }
        assert(w[h.len() as int] == '\n');
        lemma_find_newline_at(w, h.len() as int);
        assert(w.take(h.len() as int) =~= h);
        if h.len() > 0 {
            assert(h.last() == ls[0][h.len() - 1]);
        }
        assert(strip_tail_cr(h) == h);
        assert(w.skip(h.len() as int + 1) =~= Seq::<char>::empty());
        assert(lines_of(w.skip(h.len() as int + 1)) == Seq::<Seq<char>>::empty());
        assert(lines_of(w) == seq![strip_tail_cr(w.take(h.len() as int))] + lines_of(
            w.skip(h.len() as int + 1),
        ));
        assert(lines_of(w) =~= seq![h]);
        assert(seq![h] =~= ls);
        if h.len() == 0 {
            assert(lines_of(join(ls, sep)) =~= ls.drop_last());
        } else {
            lemma_find_newline_none(h);
            assert(lines_of(h) =~= seq![h]);
            assert(seq![h] =~= ls);
        }
    } else {
        let d = ls.drop_first();
        lemma_lines_of_join_nl(d);
        let w = join(ls, sep);
        assert(w == h + sep + join(d, sep));
        let wt = w + sep;
        lemma_find_newline_at(w, h.len() as int);
        lemma_find_newline_at(wt, h.len() as int);
        assert(w.take(h.len() as int) =~= h);
        assert(wt.take(h.len() as int) =~= h);
        assert(strip_tail_cr(h) == h);
        assert(w.skip(h.len() as int + 1) =~= join(d, sep));
        assert(wt.skip(h.len() as int + 1) =~= join(d, sep) + sep);
        assert(w.len() > 0);
        assert(lines_of(w) == seq![h] + lines_of(join(d, sep)));
        assert(wt.len() > 0);
        assert(lines_of(wt) == seq![h] + lines_of(join(d, sep) + sep));
        assert(seq![h] + d =~= ls);
        if d.last().len() == 0 {
            assert(ls.last().len() == 0);
            assert(seq![h] + d.drop_last() =~= ls.drop_last());
        } else {
            assert(ls.last().len() != 0);
        }
    }
}

/// A join of lines whose last line is non-empty ends with that line's last
/// character.
pub proof fn lemma_join_last(ls: Seq<Seq<char>>, sep: Seq<char>)
    requires
        ls.len() > 0,
        ls.last().len() > 0,
    ensures
        join(ls, sep).len() > 0,
        join(ls, sep).last() == ls.last().last(),
    decreases ls.len(),
{
    if ls.len() == 1 {
        assert(join(ls, sep) == ls[0]);
    } else {
        let d = ls.drop_first();
        assert(d.last() == ls.last());
        lemma_join_last(d, sep);
        assert(join(ls, sep) == ls[0] + sep + join(d, sep));
    }
}

/// When every carriage return in the content directly precedes a line feed,
/// no line carries a carriage return: each one is consumed by its line break.
pub proof fn lemma_lines_cr_free(s: Seq<char>)
    requires
        forall|j: int| 0 <= j < s.len() && #[trigger] s[j] == '\r' ==> j + 1 < s.len() && s[j + 1] == '\n',
    ensures
        forall|k: int, j: int|
            0 <= k < lines_of(s).len() && 0 <= j < lines_of(s)[k].len() ==> #[trigger] lines_of(
                s,
            )[k][j] != '\r',
    decreases s.len(),
{
    if s.len() > 0 {
        let i = find_newline(s);
        lemma_find_newline(s);
        let lo = lines_of(s);
        if i < 0 {
            assert forall|k: int, j: int|
                0 <= k < lo.len() && 0 <= j < lo[k].len() implies #[trigger] lo[k][j] != '\r' by {
                assert(lo[k] == s);
                if s[j] == '\r' {
                    assert(s[j + 1] == '\n');
                }
            }
        } else {
            let t = s.skip(i + 1);
            assert forall|j: int| 0 <= j < t.len() && #[trigger] t[j] == '\r' implies j + 1 < t.len()
                && t[j + 1] == '\n' by {
                assert(s[i + 1 + j] == '\r');
            }
            lemma_lines_cr_free(t);
            let rest = lines_of(t);
            assert forall|k: int, j: int|
                0 <= k < lo.len() && 0 <= j < lo[k].len() implies #[trigger] lo[k][j] != '\r' by {
                if k == 0 {
                    let l = strip_tail_cr(s.take(i));
                    if l[j] == '\r' {
                        assert(s[j] == '\r');
                        assert(s[j + 1] == '\n');
                        assert(j + 1 < i ==> s[j + 1] != '\n');
                        assert(j + 1 == i);
                        if s.take(i).len() > 0 && s.take(i).last() == '\r' {
                            assert(l =~= s.take(i).drop_last());
                            assert(j < i - 1);
                        } else {
                            assert(s.take(i).last() != '\r');
                            assert(s[i - 1] != '\r');
                        }
                        assert(false);
                    }
                } else {
                    assert(lo[k] == rest[k - 1]);
                }
            }
        }
    }
}

pub proof fn lemma_join_push(ls: Seq<Seq<char>>, x: Seq<char>, sep: Seq<char>)
    ensures
        join(ls.push(x), sep) == if ls.len() == 0 {
            x
        } else {
            join(ls, sep) + sep + x
        },
    decreases ls.len(),
{
    if ls.len() == 0 {
        assert(ls.push(x) =~= seq![x]);
        assert(join(seq![x], sep) == x);
    } else if ls.len() == 1 {
        let p = ls.push(x);
        assert(p.len() == 2);
        assert(p.drop_first() =~= seq![x]);
        assert(join(p, sep) == p[0] + sep + join(p.drop_first(), sep));
        assert(p[0] == ls[0]);
        assert(join(ls, sep) == ls[0]);
    } else {
        let p = ls.push(x);
        assert(p.drop_first() =~= ls.drop_first().push(x));
        lemma_join_push(ls.drop_first(), x, sep);
        assert(join(p, sep) == p[0] + sep + join(p.drop_first(), sep));
        assert(join(ls, sep) == ls[0] + sep + join(ls.drop_first(), sep));
        assert(ls[0] + sep + (join(ls.drop_first(), sep) + sep + x) =~= (ls[0] + sep + join(
            ls.drop_first(),
            sep,
        )) + sep + x);
    }
}

/// Copy of `v[from..to]`.
pub fn slice_chars(v: &Vec<char>, from: usize, to: usize) -> (r: Vec<char>)
    requires
        from <= to <= v@.len(),
    ensures
        r@ == v@.subrange(from as int, to as int),
{
    let mut r: Vec<char> = Vec::new();
    let mut i: usize = from;
    while i < to
        invariant
            from <= i <= to <= v@.len(),
            r@ == v@.subrange(from as int, i as int),
        decreases to - i,
    {
        r.push(v[i]);
        assert(r@ =~= v@.subrange(from as int, i + 1 as int));
        i += 1;
    }
    r
}

/// The views of a vector of lines.
pub open spec fn line_views(ls: Seq<Vec<char>>) -> Seq<Seq<char>> {
    ls.map_values(|l: Vec<char>| l@)
}

/// Split content into its lines, as `str::lines` does.
pub fn split_lines(v: &Vec<char>) -> (r: Vec<Vec<char>>)
    ensures
        line_views(r@) == lines_of(v@),
{
    let mut out: Vec<Vec<char>> = Vec::new();
    let mut start: usize = 0;
    let mut i: usize = 0;
    proof {
        assert(v@.skip(0) =~= v@);
    }
    while i < v.len()
        invariant
            start <= i <= v@.len(),
            forall|j: int| start <= j < i ==> v@[j] != '\n',
            lines_of(v@) == line_views(out@) + lines_of(v@.skip(start as int)),
        decreases v@.len() - i,
    {
        if v[i] == '\n' {
            let mut line = slice_chars(v, start, i);
            if line.len() > 0 && line[line.len() - 1] == '\r' {
                let _ = line.pop();
            }
            proof {
                let t = v@.skip(start as int);
                assert(t[i - start as int] == '\n');
                assert(forall|j: int| 0 <= j < i - start as int ==> t[j] != '\n');
                lemma_find_newline_at(t, i - start as int);
                assert(t.take(i - start as int) =~= v@.subrange(start as int, i as int));
                assert(line@ =~= strip_tail_cr(v@.subrange(start as int, i as int)));
                assert(t.skip(i - start as int + 1) =~= v@.skip(i + 1));
                assert(lines_of(t) == seq![strip_tail_cr(t.take(i - start as int))] + lines_of(
                    t.skip(i - start as int + 1),
                ));
                assert(line_views(out@.push(line)) =~= line_views(out@) + seq![line@]);
                assert(line_views(out@) + seq![line@] + lines_of(v@.skip(i + 1)) =~= line_views(
                    out@,
                ) + (seq![line@] + lines_of(v@.skip(i + 1))));
            }
            out.push(line);
            start = i + 1;
        }
        i += 1;
    }
    if start < v.len() {
        let line = slice_chars(v, start, v.len());
        proof {
            let t = v@.skip(start as int);
            lemma_find_newline_none(t);
            assert(t =~= v@.subrange(start as int, v@.len() as int));
            assert(lines_of(t) == seq![t]);
            assert(line_views(out@.push(line)) =~= line_views(out@) + seq![line@]);
        }
        out.push(line);
    } else {
        proof {
            assert(v@.skip(start as int) =~= Seq::<char>::empty());
            assert(line_views(out@) + lines_of(v@.skip(start as int)) =~= line_views(out@));
        }
    }
    out
}

/// Append all characters of `src` to `out`.
pub fn push_chars(out: &mut Vec<char>, src: &Vec<char>)
    ensures
        final(out)@ == old(out)@ + src@,
{
    let ghost out0 = out@;
    let mut i: usize = 0;
    while i < src.len()
        invariant
            i <= src@.len(),
            out@ == out0 + src@.take(i as int),
        decreases src@.len() - i,
    {
        out.push(src[i]);
        assert(out@ =~= out0 + src@.take(i + 1));
        i += 1;
    }
    proof {
        assert(out0 + src@.take(src@.len() as int) =~= out0 + src@);
    }
}

/// Join lines with a separator, without a trailing separator.
pub fn join_chars(lines: &Vec<Vec<char>>, sep: &Vec<char>) -> (r: Vec<char>)
    ensures
        r@ == join(line_views(lines@), sep@),
{
    let mut out: Vec<char> = Vec::new();
    let mut i: usize = 0;
    proof {
        assert(line_views(lines@).take(0) =~= Seq::<Seq<char>>::empty());
    }
    while i < lines.len()
        invariant
            i <= lines@.len(),
            out@ == join(line_views(lines@).take(i as int), sep@),
        decreases lines@.len() - i,
    {
        if i > 0 {
            push_chars(&mut out, sep);
        }
        push_chars(&mut out, &lines[i]);
        proof {
            let lv = line_views(lines@);
            assert(lv.take(i as int).push(lines@[i as int]@) =~= lv.take(i + 1));
            lemma_join_push(lv.take(i as int), lines@[i as int]@, sep@);
        }
        i += 1;
    }
    proof {
        assert(line_views(lines@).take(lines@.len() as int) =~= line_views(lines@));
    }
    out
}

/// The characters of `s`, in order.
pub fn str_chars(s: &str) -> (r: Vec<char>)
    ensures
        r@ == s@,
{
    let n = s.unicode_len();
    let mut r: Vec<char> = Vec::new();
    let mut i: usize = 0;
    while i < n
        invariant
            i <= n == s@.len(),
            r@ == s@.take(i as int),
        decreases n - i,
    {
        r.push(s.get_char(i));
        assert(r@ =~= s@.take(i + 1 as int));
        i += 1;
    }
    proof {
        assert(s@.take(n as int) =~= s@);
    }
    r
}

/// Relies on `String: FromIterator<char>`: collecting characters yields the
/// string made of exactly those characters, in order.
#[verifier::external_body]
pub fn chars_to_string(v: &Vec<char>) -> (r: String)
    ensures
        r@ == v@,
{
    v.iter().collect()
}

} // verus!
