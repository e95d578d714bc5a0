//! Content analysis: classify one file's bytes against the style rules and
//! produce a diagnostic bitmask, the diagnostic events that go with it, and,
//! when cleaning is requested, the corrected content.

use vstd::prelude::*;
use vstd::string::StringSliceAdditionalSpecFns;
use vstd::utf8::{decode_utf8, encode_scalar, encode_utf8, valid_utf8};

use crate::clean::{
    converted_line, ending_seq, lemma_normalize_endings_keeps_final_newline,
    lemma_normalize_lf_chars, lemma_normalize_lf_crfree_id, lemma_normalize_lf_lines,
    lemma_normalize_lf_proper_crfree, lemma_to_spaces_chars, lemma_to_spaces_last,
    lemma_to_spaces_nonempty, lemma_trim_end_props, normalize_endings_spec,
    normalize_line_endings, proper_cr, remove_trailing_spec, remove_trailing_whitespaces,
    space_tabs_conversion, space_tabs_spec, to_spaces_rec, to_spaces_spec, trim_end_spec,
    LineEnding, TabStrategy,
};
use crate::text::{
    allowed_char, is_allowed_char, join, lemma_find_newline_at, lemma_join_chars,
    lemma_last_line_nonempty, lemma_line_chars_in_content, lemma_lines_cr_free,
    lemma_lines_no_newline, lemma_lines_of_join_nl, lemma_lines_of_len, line_views, lines_of,
    split_lines, str_chars, strip_tail_cr, whitespace_char,
};

verus! {

/// How much diagnostic output is wanted.
#[derive(Clone, Copy, Debug, PartialEq, Eq, Structural)]
pub enum InfoLevel {
    Quiet,
    Normal,
    Verbose,
}

pub const HAS_TABS: u8 = 1;

pub const TRAILING_SPACES: u8 = 2;

pub const HAS_ILLEGAL_CHARACTERS: u8 = 4;

pub const LINE_TOO_LONG: u8 = 8;

pub const HAS_WINDOWS_LINE_ENDINGS: u8 = 16;

/// One style rule, as named in diagnostics.
#[derive(Clone, Copy, Debug, PartialEq, Eq, Structural)]
pub enum Issue {
    TooLong,
    TrailingSpaces,
    Tabs,
    IllegalCharacters,
    WindowsLineEndings,
}

/// One diagnostic event for the file under analysis, in the order produced.
/// The consumer renders these as text; the file name is known to the caller.
#[derive(Clone, Copy, Debug, PartialEq, Eq, Structural)]
pub enum LogEvent {
    /// At verbose level: one violating line, counted from one.
    Line { line: u32, issue: Issue },
    /// At verbose level: a violation of the whole file.
    WholeFile { issue: Issue },
    /// At normal level: some lines violate the rule.
    SomeLines { issue: Issue },
    /// At verbose level: the rule's correction is being applied.
    Cleaning { issue: Issue },
    /// At normal or verbose level, for bytes that are not valid text: one
    /// line, split at line feeds and counted from one, whose decoding failed.
    BadEncodingLine { line: u32 },
}

/// The UTF-8 byte length of a line, which is what the length limit is
/// measured in.
pub open spec fn line_byte_len(l: Seq<char>) -> nat {
    encode_utf8(l).len()
}

/// The line exceeds the configured maximum length, when one is configured.
pub open spec fn line_too_long(l: Seq<char>, max: Option<usize>) -> bool {
    match max {
        Option::Some(m) => line_byte_len(l) > m,
        Option::None => false,
    }
}

/// The line ends with a space or a tab.
pub open spec fn line_trailing_ws(l: Seq<char>) -> bool {
    l.len() > 0 && (l.last() == ' ' || l.last() == '\t')
}

/// The line contains a tab.
pub open spec fn line_has_tab(l: Seq<char>) -> bool {
    l.contains('\t')
}

/// The line contains a character outside the allow-listed ranges.
pub open spec fn line_illegal(l: Seq<char>) -> bool {
    exists|j: int| 0 <= j < l.len() && !allowed_char(l[j])
}

/// The content contains the two-character Windows line-ending sequence.
pub open spec fn contains_crlf(s: Seq<char>) -> bool {
    exists|j: int| 0 <= j && j + 1 < s.len() && #[trigger] s[j] == '\r' && s[j + 1] == '\n'
}

pub open spec fn some_line_too_long(s: Seq<char>, max: Option<usize>) -> bool {
    exists|k: int| 0 <= k < lines_of(s).len() && line_too_long(lines_of(s)[k], max)
}

pub open spec fn some_line_trailing_ws(s: Seq<char>) -> bool {
    exists|k: int| 0 <= k < lines_of(s).len() && line_trailing_ws(lines_of(s)[k])
}

pub open spec fn some_line_has_tab(s: Seq<char>) -> bool {
    exists|k: int| 0 <= k < lines_of(s).len() && line_has_tab(lines_of(s)[k])
}

pub open spec fn some_line_illegal(s: Seq<char>) -> bool {
    exists|k: int| 0 <= k < lines_of(s).len() && line_illegal(lines_of(s)[k])
}

/// Whether tab checking is in force.
pub open spec fn checks_tabs(strategy: TabStrategy) -> bool {
    strategy == TabStrategy::Untabify
}

/// The diagnostic bitmask of valid text content: one independent flag per
/// violated rule.
pub open spec fn analysis_flags(s: Seq<char>, max: Option<usize>, strategy: TabStrategy) -> u8 {
    ((if some_line_has_tab(s) && checks_tabs(strategy) {
        HAS_TABS
    } else {
        0
    }) + (if some_line_trailing_ws(s) {
        TRAILING_SPACES
    } else {
        0
    }) + (if some_line_illegal(s) {
        HAS_ILLEGAL_CHARACTERS
    } else {
        0
    }) + (if some_line_too_long(s, max) {
        LINE_TOO_LONG
    } else {
        0
    }) + (if contains_crlf(s) {
        HAS_WINDOWS_LINE_ENDINGS
    } else {
        0
    })) as u8
}

/// The verbose events for one line, in rule order.
pub open spec fn line_events(
    idx: int,
    l: Seq<char>,
    max: Option<usize>,
    strategy: TabStrategy,
) -> Seq<LogEvent> {
    (if line_too_long(l, max) {
        seq![LogEvent::Line { line: idx as u32, issue: Issue::TooLong }]
    } else {
        Seq::empty()
    }) + (if line_trailing_ws(l) {
        seq![LogEvent::Line { line: idx as u32, issue: Issue::TrailingSpaces }]
    } else {
        Seq::empty()
    }) + (if checks_tabs(strategy) && line_has_tab(l) {
        seq![LogEvent::Line { line: idx as u32, issue: Issue::Tabs }]
    } else {
        Seq::empty()
    }) + (if line_illegal(l) {
        seq![LogEvent::Line { line: idx as u32, issue: Issue::IllegalCharacters }]
    } else {
        Seq::empty()
    })
}

/// The verbose events of a run of lines, numbering them from `start_idx`.
pub open spec fn verbose_line_events(
    ls: Seq<Seq<char>>,
    start_idx: int,
    max: Option<usize>,
    strategy: TabStrategy,
) -> Seq<LogEvent>
    decreases ls.len(),
{
    if ls.len() == 0 {
        Seq::empty()
    } else {
        line_events(start_idx, ls[0], max, strategy) + verbose_line_events(
            ls.drop_first(),
            start_idx + 1,
            max,
            strategy,
        )
    }
}

proof fn lemma_verbose_line_events_push(
    ls: Seq<Seq<char>>,
    x: Seq<char>,
    start_idx: int,
    max: Option<usize>,
    strategy: TabStrategy,
)
    ensures
        verbose_line_events(ls.push(x), start_idx, max, strategy) == verbose_line_events(
            ls,
            start_idx,
            max,
            strategy,
        ) + line_events(start_idx + ls.len(), x, max, strategy),
    decreases ls.len(),
{
    if ls.len() == 0 {
        let p = ls.push(x);
        let le = line_events(start_idx, x, max, strategy);
        assert(p.drop_first() =~= Seq::<Seq<char>>::empty());
        assert(p[0] == x);
        assert(verbose_line_events(p.drop_first(), start_idx + 1, max, strategy)
            == Seq::<LogEvent>::empty());
        assert(verbose_line_events(p, start_idx, max, strategy) == le + Seq::<LogEvent>::empty());
        assert(le + Seq::<LogEvent>::empty() =~= le);
        assert(verbose_line_events(ls, start_idx, max, strategy) == Seq::<LogEvent>::empty());
        assert(Seq::<LogEvent>::empty() + le =~= le);
    } else {
        let p = ls.push(x);
        assert(p.drop_first() =~= ls.drop_first().push(x));
        assert(p[0] == ls[0]);
        lemma_verbose_line_events_push(ls.drop_first(), x, start_idx + 1, max, strategy);
        assert(line_events(start_idx, ls[0], max, strategy) + (verbose_line_events(
            ls.drop_first(),
            start_idx + 1,
            max,
            strategy,
        ) + line_events(start_idx + ls.len(), x, max, strategy)) =~= (line_events(
            start_idx,
            ls[0],
            max,
            strategy,
        ) + verbose_line_events(ls.drop_first(), start_idx + 1, max, strategy)) + line_events(
            start_idx + ls.len(),
            x,
            max,
            strategy,
        ));
    }
}

/// All events of one file's analysis, in the order they are produced: at
/// verbose level one event per violating line (then the whole-file Windows
/// line-ending event), at normal level one event per violated rule, at quiet
/// level none.
pub open spec fn analysis_events(
    s: Seq<char>,
    level: InfoLevel,
    max: Option<usize>,
    strategy: TabStrategy,
) -> Seq<LogEvent> {
    if level == InfoLevel::Verbose {
        verbose_line_events(lines_of(s), 1, max, strategy) + (if contains_crlf(s) {
            seq![LogEvent::WholeFile { issue: Issue::WindowsLineEndings }]
        } else {
            Seq::empty()
        })
    } else if level == InfoLevel::Normal {
        (if some_line_too_long(s, max) {
            seq![LogEvent::SomeLines { issue: Issue::TooLong }]
        } else {
            Seq::empty()
        }) + (if some_line_trailing_ws(s) {
            seq![LogEvent::SomeLines { issue: Issue::TrailingSpaces }]
        } else {
            Seq::empty()
        }) + (if some_line_has_tab(s) && checks_tabs(strategy) {
            seq![LogEvent::SomeLines { issue: Issue::Tabs }]
        } else {
            Seq::empty()
        }) + (if contains_crlf(s) {
            seq![LogEvent::SomeLines { issue: Issue::WindowsLineEndings }]
        } else {
            Seq::empty()
        }) + (if some_line_illegal(s) {
            seq![LogEvent::SomeLines { issue: Issue::IllegalCharacters }]
        } else {
            Seq::empty()
        })
    } else {
        Seq::empty()
    }
}

proof fn lemma_encode_utf8_push(s: Seq<char>, c: char)
    ensures
        encode_utf8(s.push(c)) == encode_utf8(s) + encode_scalar(c as u32),
    decreases s.len(),
{
    if s.len() == 0 {
        let p = s.push(c);
        let e = encode_scalar(c as u32);
        assert(p.drop_first() =~= Seq::<char>::empty());
        assert(p[0] == c);
        assert(encode_utf8(p.drop_first()) == Seq::<u8>::empty());
        assert(encode_utf8(p) == e + Seq::<u8>::empty());
        assert(e + Seq::<u8>::empty() =~= e);
        assert(encode_utf8(s) == Seq::<u8>::empty());
        assert(Seq::<u8>::empty() + e =~= e);
    } else {
        let p = s.push(c);
        assert(p.drop_first() =~= s.drop_first().push(c));
        assert(p[0] == s[0]);
        lemma_encode_utf8_push(s.drop_first(), c);
        assert(encode_utf8(p) == encode_scalar(p[0] as u32) + encode_utf8(p.drop_first()));
        assert(encode_utf8(s) == encode_scalar(s[0] as u32) + encode_utf8(s.drop_first()));
        assert(encode_scalar(s[0] as u32) + (encode_utf8(s.drop_first()) + encode_scalar(
            c as u32,
        )) =~= (encode_scalar(s[0] as u32) + encode_utf8(s.drop_first())) + encode_scalar(
            c as u32,
        ));
    }
}

/// The UTF-8 width of one character.
fn char_utf8_width(c: char) -> (r: u8)
    ensures
        r as nat == encode_scalar(c as u32).len(),
        1 <= r <= 4,
{
    proof {
        vstd::utf8::char_is_scalar(c);
    }
    let u = c as u32;
    if u <= 0x7f {
        1
    } else if u <= 0x7ff {
        2
    } else if u <= 0xffff {
        3
    } else {
        4
    }
}

/// The UTF-8 byte length of a line.
fn line_byte_len_exec(l: &Vec<char>) -> (r: u128)
    ensures
        r == line_byte_len(l@),
{
    let mut total: u128 = 0;
    let mut i: usize = 0;
    proof {
        assert(l@.take(0) =~= Seq::<char>::empty());
        assert(encode_utf8(Seq::<char>::empty()).len() == 0);
    }
    while i < l.len()
        invariant
            i <= l@.len(),
            total == encode_utf8(l@.take(i as int)).len(),
            total <= 4 * i,
        decreases l@.len() - i,
    {
        let w = char_utf8_width(l[i]);
        proof {
            lemma_encode_utf8_push(l@.take(i as int), l@[i as int]);
            assert(l@.take(i as int).push(l@[i as int]) =~= l@.take(i + 1));
        }
        total += w as u128;
        i += 1;
    }
    proof {
        assert(l@.take(l@.len() as int) =~= l@);
    }
    total
}

fn line_exceeds(l: &Vec<char>, max: &Option<usize>) -> (r: bool)
    ensures
        r == line_too_long(l@, *max),
{
    match max {
        Option::Some(m) => {
            let len = line_byte_len_exec(l);
            len > *m as u128
        },
        Option::None => false,
    }
}

fn line_ends_in_ws(l: &Vec<char>) -> (r: bool)
    ensures
        r == line_trailing_ws(l@),
{
    if l.len() == 0 {
        false
    } else {
        let c = l[l.len() - 1];
        c == ' ' || c == '\t'
    }
}

fn line_contains_tab(l: &Vec<char>) -> (r: bool)
    ensures
        r == line_has_tab(l@),
{
    let mut i: usize = 0;
    while i < l.len()
        invariant
            i <= l@.len(),
            forall|j: int| 0 <= j < i ==> l@[j] != '\t',
        decreases l@.len() - i,
    {
        if l[i] == '\t' {
            return true;
        }
        i += 1;
    }
    false
}

fn line_has_illegal(l: &Vec<char>) -> (r: bool)
    ensures
        r == line_illegal(l@),
{
    let mut i: usize = 0;
    while i < l.len()
        invariant
            i <= l@.len(),
            forall|j: int| 0 <= j < i ==> allowed_char(l@[j]),
        decreases l@.len() - i,
    {
        if !is_allowed_char(l[i]) {
            return true;
        }
        i += 1;
    }
    false
}

fn chars_contain_crlf(v: &Vec<char>) -> (r: bool)
    ensures
        r == contains_crlf(v@),
{
    let mut i: usize = 0;
    while i < v.len()
        invariant
            i <= v@.len(),
            forall|j: int|
                0 <= j < i && j + 1 < v@.len() ==> !(#[trigger] v@[j] == '\r' && v@[j + 1] == '\n'),
        decreases v@.len() - i,
    {
        if v[i] == '\r' && i + 1 < v.len() && v[i + 1] == '\n' {
            return true;
        }
        i += 1;
    }
    false
}

/// Combine the per-rule verdicts into the diagnostic bitmask.
fn pack_flags(tabs: bool, trailing: bool, illegal: bool, too_long: bool, win: bool) -> (r: u8)
    ensures
        r == (if tabs {
            HAS_TABS
        } else {
            0
        }) + (if trailing {
            TRAILING_SPACES
        } else {
            0
        }) + (if illegal {
            HAS_ILLEGAL_CHARACTERS
        } else {
            0
        }) + (if too_long {
            LINE_TOO_LONG
        } else {
            0
        }) + (if win {
            HAS_WINDOWS_LINE_ENDINGS
        } else {
            0
        }),
        r & HAS_TABS != 0 <==> tabs,
        r & TRAILING_SPACES != 0 <==> trailing,
        r & HAS_ILLEGAL_CHARACTERS != 0 <==> illegal,
        r & LINE_TOO_LONG != 0 <==> too_long,
        r & HAS_WINDOWS_LINE_ENDINGS != 0 <==> win,
{
    let a: u8 = if tabs {
        1
    } else {
        0
    };
    let b: u8 = if trailing {
        2
    } else {
        0
    };
    let c: u8 = if illegal {
        4
    } else {
        0
    };
    let d: u8 = if too_long {
        8
    } else {
        0
    };
    let e: u8 = if win {
        16
    } else {
        0
    };
    let r = a + b + c + d + e;
    proof {
        assert((r & 1 != 0 <==> a == 1) && (r & 2 != 0 <==> b == 2) && (r & 4 != 0 <==> c == 4) && (
        r & 8 != 0 <==> d == 8) && (r & 16 != 0 <==> e == 16)) by (bit_vector)
            requires
                (a == 0 || a == 1) && (b == 0 || b == 2) && (c == 0 || c == 4) && (d == 0 || d == 8)
                    && (e == 0 || e == 16) && r == a + b + c + d + e,
        ;
    }
    r
}

/// Analyze valid text content line by line and return the diagnostic bitmask
/// together with the diagnostic events that the chosen verbosity asks for.
#[verifier::rlimit(100)]
pub fn check_content(
    input: &str,
    info_level: InfoLevel,
    max_line_length: Option<usize>,
    strategy: TabStrategy,
) -> (r: (u8, Vec<LogEvent>))
    requires
        input@.len() <= u32::MAX,
    ensures
        r.0 == analysis_flags(input@, max_line_length, strategy),
        r.1@ == analysis_events(input@, info_level, max_line_length, strategy),
{
    let chars = str_chars(input);
    let lines = split_lines(&chars);
    proof {
        lemma_lines_of_len(input@);
    }
    let ghost lo = lines_of(input@);
    let mut any_too_long = false;
    let mut any_trailing = false;
    let mut any_tab = false;
    let mut any_illegal = false;
    let mut events: Vec<LogEvent> = Vec::new();
    let verbose = info_level == InfoLevel::Verbose;
    let tabs_checked = strategy == TabStrategy::Untabify;
    let mut k: usize = 0;
    proof {
        assert(lo.take(0) =~= Seq::<Seq<char>>::empty());
    }
    while k < lines.len()
        invariant
            k <= lines@.len(),
            line_views(lines@) == lo,
            lo == lines_of(input@),
            lo.len() <= input@.len() <= u32::MAX,
            verbose == (info_level == InfoLevel::Verbose),
            tabs_checked == checks_tabs(strategy),
            any_too_long == exists|j: int|
                0 <= j < k && line_too_long(#[trigger] lo[j], max_line_length),
            any_trailing == exists|j: int| 0 <= j < k && line_trailing_ws(#[trigger] lo[j]),
            any_tab == exists|j: int| 0 <= j < k && line_has_tab(#[trigger] lo[j]),
            any_illegal == exists|j: int| 0 <= j < k && line_illegal(#[trigger] lo[j]),
            events@ == if verbose {
                verbose_line_events(lo.take(k as int), 1, max_line_length, strategy)
            } else {
                Seq::<LogEvent>::empty()
            },
        decreases lines@.len() - k,
    {
        let tl = line_exceeds(&lines[k], &max_line_length);
        let tr = line_ends_in_ws(&lines[k]);
        let tb = line_contains_tab(&lines[k]);
        let il = line_has_illegal(&lines[k]);
        if verbose {
            let ghost ev0 = events@;
            let n = (k as u32) + 1;
            if tl {
                events.push(LogEvent::Line { line: n, issue: Issue::TooLong });
            }
            if tr {
                events.push(LogEvent::Line { line: n, issue: Issue::TrailingSpaces });
            }
            if tabs_checked && tb {
                events.push(LogEvent::Line { line: n, issue: Issue::Tabs });
            }
            if il {
                events.push(LogEvent::Line { line: n, issue: Issue::IllegalCharacters });
            }
            proof {
                assert(events@ =~= ev0 + line_events(k + 1, lo[k as int], max_line_length, strategy));
                lemma_verbose_line_events_push(
                    lo.take(k as int),
                    lo[k as int],
                    1,
                    max_line_length,
                    strategy,
                );
                assert(lo.take(k as int).push(lo[k as int]) =~= lo.take(k + 1));
            }
        }
        proof {
            if tl {
                assert(line_too_long(lo[k as int], max_line_length));
            }
            if tr {
                assert(line_trailing_ws(lo[k as int]));
            }
            if tb {
                assert(line_has_tab(lo[k as int]));
            }
            if il {
                assert(line_illegal(lo[k as int]));
            }
        }
        any_too_long = any_too_long || tl;
        any_trailing = any_trailing || tr;
        any_tab = any_tab || tb;
        any_illegal = any_illegal || il;
        k += 1;
    }
    proof {
        assert(lo.take(lo.len() as int) =~= lo);
    }
    let win = chars_contain_crlf(&chars);
    if verbose && win {
        events.push(LogEvent::WholeFile { issue: Issue::WindowsLineEndings });
    }
    let flags = pack_flags(
        any_tab && tabs_checked,
        any_trailing,
        any_illegal,
        any_too_long,
        win,
    );
    if info_level == InfoLevel::Normal {
        let ghost ev0 = events@;
        if flags & LINE_TOO_LONG > 0 {
            events.push(LogEvent::SomeLines { issue: Issue::TooLong });
        }
        if flags & TRAILING_SPACES > 0 {
            events.push(LogEvent::SomeLines { issue: Issue::TrailingSpaces });
        }
        if flags & HAS_TABS > 0 {
            events.push(LogEvent::SomeLines { issue: Issue::Tabs });
        }
        if flags & HAS_WINDOWS_LINE_ENDINGS > 0 {
            events.push(LogEvent::SomeLines { issue: Issue::WindowsLineEndings });
        }
        if flags & HAS_ILLEGAL_CHARACTERS > 0 {
            events.push(LogEvent::SomeLines { issue: Issue::IllegalCharacters });
        }
        proof {
            assert(ev0 =~= Seq::<LogEvent>::empty());
            assert(events@ =~= analysis_events(input@, info_level, max_line_length, strategy));
        }
    }
    proof {
        if verbose {
            assert(events@ =~= analysis_events(input@, info_level, max_line_length, strategy));
        }
        if info_level == InfoLevel::Quiet {
            assert(events@ =~= analysis_events(input@, info_level, max_line_length, strategy));
        }
    }
    (flags, events)
}

/// Index of the first line feed byte in `b`, or `-1` if there is none.
pub open spec fn find_byte_newline(b: Seq<u8>) -> int
    decreases b.len(),
{
    if b.len() == 0 {
        -1
    } else if b[0] == 10 {
        0
    } else {
        let r = find_byte_newline(b.drop_first());
        if r < 0 {
            -1
        } else {
            r + 1
        }
    }
}

proof fn lemma_find_byte_newline(b: Seq<u8>)
    ensures
        find_byte_newline(b) >= 0 ==> 0 <= find_byte_newline(b) < b.len() && b[find_byte_newline(
            b,
        )] == 10,
        find_byte_newline(b) < 0 ==> forall|j: int| 0 <= j < b.len() ==> b[j] != 10,
    decreases b.len(),
{
    if b.len() > 0 && b[0] != 10 {
        let t = b.drop_first();
        lemma_find_byte_newline(t);
        assert(forall|j: int| 0 <= j < t.len() ==> t[j] == b[j + 1]);
        if find_byte_newline(t) < 0 {
            assert(forall|j: int| 0 <= j < b.len() ==> b[j] != 10) by {
                assert(forall|j: int| 1 <= j < b.len() ==> b[j] == t[j - 1]);
            }
        }
    }
}

proof fn lemma_find_byte_newline_at(b: Seq<u8>, i: int)
    requires
        0 <= i < b.len(),
        b[i] == 10,
        forall|j: int| 0 <= j < i ==> b[j] != 10,
    ensures
        find_byte_newline(b) == i,
    decreases b.len(),
{
    if i > 0 {
        lemma_find_byte_newline_at(b.drop_first(), i - 1);
    }
}

proof fn lemma_find_byte_newline_none(b: Seq<u8>)
    requires
        forall|j: int| 0 <= j < b.len() ==> b[j] != 10,
    ensures
        find_byte_newline(b) < 0,
    decreases b.len(),
{
    if b.len() > 0 {
        lemma_find_byte_newline_none(b.drop_first());
    }
}

/// The byte content split at line feeds, the way the per-line decoding check
/// reads it: a final segment without a terminator is still a line.
pub open spec fn byte_lines(b: Seq<u8>) -> Seq<Seq<u8>>
    decreases b.len(),
    via byte_lines_decreases
{
    if b.len() == 0 {
        Seq::empty()
    } else {
        let i = find_byte_newline(b);
        if i < 0 {
            seq![b]
        } else {
            seq![b.take(i)] + byte_lines(b.skip(i + 1))
        }
    }
}

#[via_fn]
proof fn byte_lines_decreases(b: Seq<u8>) {
    if b.len() > 0 {
        lemma_find_byte_newline(b);
    }
}

proof fn lemma_byte_lines_len(b: Seq<u8>)
    ensures
        byte_lines(b).len() <= b.len(),
    decreases b.len(),
{
    if b.len() > 0 {
        let i = find_byte_newline(b);
        lemma_find_byte_newline(b);
        if i >= 0 {
            lemma_byte_lines_len(b.skip(i + 1));
        }
    }
}

/// One event per byte line that is not valid text, numbering the lines from
/// `idx`.
pub open spec fn encoding_error_events_from(ls: Seq<Seq<u8>>, idx: int) -> Seq<LogEvent>
    decreases ls.len(),
{
    if ls.len() == 0 {
        Seq::empty()
    } else {
        (if !valid_utf8(ls[0]) {
            seq![LogEvent::BadEncodingLine { line: idx as u32 }]
        } else {
            Seq::empty()
        }) + encoding_error_events_from(ls.drop_first(), idx + 1)
    }
}

proof fn lemma_encoding_error_events_push(ls: Seq<Seq<u8>>, x: Seq<u8>, idx: int)
    ensures
        encoding_error_events_from(ls.push(x), idx) == encoding_error_events_from(ls, idx) + (if !valid_utf8(
            x,
        ) {
            seq![LogEvent::BadEncodingLine { line: (idx + ls.len()) as u32 }]
        } else {
            Seq::<LogEvent>::empty()
        }),
    decreases ls.len(),
{
    let tail = if !valid_utf8(x) {
        seq![LogEvent::BadEncodingLine { line: (idx + ls.len()) as u32 }]
    } else {
        Seq::<LogEvent>::empty()
    };
    if ls.len() == 0 {
        let p = ls.push(x);
        assert(p.drop_first() =~= Seq::<Seq<u8>>::empty());
        assert(p[0] == x);
        assert(encoding_error_events_from(p.drop_first(), idx + 1) == Seq::<LogEvent>::empty());
        assert(encoding_error_events_from(p, idx) == tail + Seq::<LogEvent>::empty());
        assert(tail + Seq::<LogEvent>::empty() =~= tail);
        assert(encoding_error_events_from(ls, idx) == Seq::<LogEvent>::empty());
        assert(Seq::<LogEvent>::empty() + tail =~= tail);
    } else {
        let p = ls.push(x);
        assert(p.drop_first() =~= ls.drop_first().push(x));
        assert(p[0] == ls[0]);
        lemma_encoding_error_events_push(ls.drop_first(), x, idx + 1);
        let h = if !valid_utf8(ls[0]) {
            seq![LogEvent::BadEncodingLine { line: idx as u32 }]
        } else {
            Seq::<LogEvent>::empty()
        };
        assert(h + (encoding_error_events_from(ls.drop_first(), idx + 1) + tail) =~= (h
            + encoding_error_events_from(ls.drop_first(), idx + 1)) + tail);
    }
}

/// The events reporting which lines of undecodable content fail to decode.
pub open spec fn encoding_error_events(b: Seq<u8>) -> Seq<LogEvent> {
    encoding_error_events_from(byte_lines(b), 1)
}

fn split_byte_lines(buf: &[u8]) -> (r: Vec<Vec<u8>>)
    ensures
        r@.map_values(|l: Vec<u8>| l@) == byte_lines(buf@),
{
    let mut out: Vec<Vec<u8>> = Vec::new();
    let mut start: usize = 0;
    let mut i: usize = 0;
    proof {
        assert(buf@.skip(0) =~= buf@);
    }
    while i < buf.len()
        invariant
            start <= i <= buf@.len(),
            forall|j: int| start <= j < i ==> buf@[j] != 10,
            byte_lines(buf@) == out@.map_values(|l: Vec<u8>| l@) + byte_lines(
                buf@.skip(start as int),
            ),
        decreases buf@.len() - i,
    {
        if buf[i] == 10 {
            let line = vstd::slice::slice_to_vec(vstd::slice::slice_subrange(buf, start, i));
            proof {
                let t = buf@.skip(start as int);
                assert(t[i - start as int] == 10);
                assert(forall|j: int| 0 <= j < i - start as int ==> t[j] != 10);
                lemma_find_byte_newline_at(t, i - start as int);
                assert(t.take(i - start as int) =~= buf@.subrange(start as int, i as int));
                assert(t.skip(i - start as int + 1) =~= buf@.skip(i + 1));
                assert(byte_lines(t) == seq![t.take(i - start as int)] + byte_lines(
                    t.skip(i - start as int + 1),
                ));
                assert(out@.push(line).map_values(|l: Vec<u8>| l@) =~= out@.map_values(
                    |l: Vec<u8>| l@,
                ).push(line@));
                assert(out@.map_values(|l: Vec<u8>| l@) + seq![line@] + byte_lines(buf@.skip(i + 1))
                    =~= out@.map_values(|l: Vec<u8>| l@) + (seq![line@] + byte_lines(
                    buf@.skip(i + 1),
                )));
            }
            out.push(line);
            start = i + 1;
        }
        i += 1;
    }
    if start < buf.len() {
        let line = vstd::slice::slice_to_vec(vstd::slice::slice_subrange(buf, start, buf.len()));
        proof {
            let t = buf@.skip(start as int);
            lemma_find_byte_newline_none(t);
            assert(t =~= buf@.subrange(start as int, buf@.len() as int));
            assert(byte_lines(t) == seq![t]);
            assert(out@.push(line).map_values(|l: Vec<u8>| l@) =~= out@.map_values(
                |l: Vec<u8>| l@,
            ).push(line@));
        }
        out.push(line);
    } else {
        proof {
            assert(buf@.skip(start as int) =~= Seq::<u8>::empty());
            assert(out@.map_values(|l: Vec<u8>| l@) + byte_lines(buf@.skip(start as int))
                =~= out@.map_values(|l: Vec<u8>| l@));
        }
    }
    out
}

/// Compute which lines of undecodable content fail to decode, counted from
/// one and split at line feeds.
fn encoding_error_lines(buf: &[u8]) -> (r: Vec<LogEvent>)
    requires
        buf@.len() <= u32::MAX,
    ensures
        r@ == encoding_error_events(buf@),
{
    proof {
        lemma_byte_lines_len(buf@);
    }
    let segments = split_byte_lines(buf);
    let ghost bl = byte_lines(buf@);
    let mut r: Vec<LogEvent> = Vec::new();
    let mut k: usize = 0;
    proof {
        assert(bl.take(0) =~= Seq::<Seq<u8>>::empty());
    }
    while k < segments.len()
        invariant
            k <= segments@.len(),
            segments@.map_values(|l: Vec<u8>| l@) == bl,
            bl == byte_lines(buf@),
            bl.len() <= buf@.len() <= u32::MAX,
            r@ == encoding_error_events_from(bl.take(k as int), 1),
        decreases segments@.len() - k,
    {
        let ok = match utf8_str(segments[k].as_slice()) {
            Option::Some(_) => true,
            Option::None => false,
        };
        proof {
            lemma_encoding_error_events_push(bl.take(k as int), bl[k as int], 1);
            assert(bl.take(k as int).push(bl[k as int]) =~= bl.take(k + 1));
        }
        if !ok {
            r.push(LogEvent::BadEncodingLine { line: (k as u32) + 1 });
            assert(r@ =~= encoding_error_events_from(bl.take(k + 1), 1));
        } else {
            assert(r@ =~= encoding_error_events_from(bl.take(k + 1), 1));
        }
        k += 1;
    }
    proof {
        assert(bl.take(bl.len() as int) =~= bl);
    }
    r
}

/// Relies on `core::str::from_utf8`: it succeeds exactly on valid UTF-8 input
/// and returns the string made of those bytes.
#[verifier::external_body]
fn utf8_str(buf: &[u8]) -> (r: Option<&str>)
    ensures
        r is Some <==> valid_utf8(buf@),
        r is Some ==> r->0.spec_bytes() == buf@,
{
    core::str::from_utf8(buf).ok()
}

/// A UTF-8 encoding is at least as long as the character sequence it encodes.
proof fn lemma_encode_len_ge(s: Seq<char>)
    ensures
        encode_utf8(s).len() >= s.len(),
    decreases s.len(),
{
    if s.len() > 0 {
        lemma_encode_len_ge(s.drop_first());
        assert(encode_scalar(s[0] as u32).len() >= 1);
    }
}

/// The outcome of checking (and optionally cleaning) one file's bytes.
pub struct CheckOutcome {
    /// The diagnostic bitmask.
    pub flags: u8,
    /// The diagnostic events, in order.
    pub events: Vec<LogEvent>,
    /// The corrected content to write back, when cleaning was requested and
    /// the content was valid text.
    pub rewrite: Option<String>,
    /// Whether the bytes decoded as text at all.
    pub decoded: bool,
}

/// The cleaning notices, in the order the corrections are applied.
pub open spec fn cleaning_events(flags: u8, clean: bool, level: InfoLevel) -> Seq<LogEvent> {
    if clean && level == InfoLevel::Verbose {
        (if flags & TRAILING_SPACES != 0 {
            seq![LogEvent::Cleaning { issue: Issue::TrailingSpaces }]
        } else {
            Seq::empty()
        }) + (if flags & HAS_TABS != 0 {
            seq![LogEvent::Cleaning { issue: Issue::Tabs }]
        } else {
            Seq::empty()
        }) + (if flags & HAS_WINDOWS_LINE_ENDINGS != 0 {
            seq![LogEvent::Cleaning { issue: Issue::WindowsLineEndings }]
        } else {
            Seq::empty()
        })
    } else {
        Seq::empty()
    }
}

/// Corrected content: trailing whitespace is stripped first, then tabs are
/// expanded, then line endings are normalized to the configured target —
/// each step only when its flag was raised by the analysis.
pub open spec fn cleaned_content(s: Seq<char>, flags: u8, ending: LineEnding) -> Seq<char> {
    let a = if flags & TRAILING_SPACES != 0 {
        remove_trailing_spec(s, ending)
    } else {
        s
    };
    let b = if flags & HAS_TABS != 0 {
        space_tabs_spec(a, TabStrategy::Untabify, ending)
    } else {
        a
    };
    if flags & HAS_WINDOWS_LINE_ENDINGS != 0 {
        normalize_endings_spec(b, ending)
    } else {
        b
    }
}

/// What each bit of the diagnostic bitmask means.
pub proof fn lemma_analysis_flag_bits(s: Seq<char>, max: Option<usize>, strategy: TabStrategy)
    ensures
        analysis_flags(s, max, strategy) & HAS_TABS != 0 <==> (some_line_has_tab(s) && checks_tabs(
            strategy,
        )),
        analysis_flags(s, max, strategy) & TRAILING_SPACES != 0 <==> some_line_trailing_ws(s),
        analysis_flags(s, max, strategy) & HAS_ILLEGAL_CHARACTERS != 0 <==> some_line_illegal(s),
        analysis_flags(s, max, strategy) & LINE_TOO_LONG != 0 <==> some_line_too_long(s, max),
        analysis_flags(s, max, strategy) & HAS_WINDOWS_LINE_ENDINGS != 0 <==> contains_crlf(s),
{
    let a: u8 = if some_line_has_tab(s) && checks_tabs(strategy) {
        1
    } else {
        0
    };
    let b: u8 = if some_line_trailing_ws(s) {
        2
    } else {
        0
    };
    let c: u8 = if some_line_illegal(s) {
        4
    } else {
        0
    };
    let d: u8 = if some_line_too_long(s, max) {
        8
    } else {
        0
    };
    let e: u8 = if contains_crlf(s) {
        16
    } else {
        0
    };
    let r = analysis_flags(s, max, strategy);
    assert(r == a + b + c + d + e);
    assert((r & 1 != 0 <==> a == 1) && (r & 2 != 0 <==> b == 2) && (r & 4 != 0 <==> c == 4) && (r
        & 8 != 0 <==> d == 8) && (r & 16 != 0 <==> e == 16)) by (bit_vector)
        requires
            (a == 0 || a == 1) && (b == 0 || b == 2) && (c == 0 || c == 4) && (d == 0 || d == 8)
                && (e == 0 || e == 16) && r == a + b + c + d + e,
    ;
}

/// For all text with no tabs, no trailing whitespace on any line, only
/// allow-listed characters, no Windows line-ending sequence, and no line over
/// the configured length limit, the analysis flags nothing.
pub proof fn lemma_compliant_content_flags_zero(
    s: Seq<char>,
    max: Option<usize>,
    strategy: TabStrategy,
)
    requires
        !s.contains('\t'),
        forall|k: int| 0 <= k < lines_of(s).len() ==> !line_trailing_ws(#[trigger] lines_of(s)[k]),
        forall|j: int| 0 <= j < s.len() ==> allowed_char(#[trigger] s[j]),
        !contains_crlf(s),
        forall|k: int|
            0 <= k < lines_of(s).len() ==> !line_too_long(#[trigger] lines_of(s)[k], max),
    ensures
        analysis_flags(s, max, strategy) == 0,
{
    lemma_line_chars_in_content(s);
    assert(!some_line_has_tab(s)) by {
        if some_line_has_tab(s) {
            let k = choose|k: int|
                0 <= k < lines_of(s).len() && line_has_tab(#[trigger] lines_of(s)[k]);
            assert(lines_of(s)[k].contains('\t'));
            assert(s.contains('\t'));
        }
    }
    assert(!some_line_illegal(s)) by {
        if some_line_illegal(s) {
            let k = choose|k: int|
                0 <= k < lines_of(s).len() && line_illegal(#[trigger] lines_of(s)[k]);
            let l = lines_of(s)[k];
            let j = choose|j: int| 0 <= j < l.len() && !allowed_char(l[j]);
            assert(l.contains(l[j]));
            assert(s.contains(l[j]));
            let m = choose|m: int| 0 <= m < s.len() && s[m] == l[j];
            assert(allowed_char(s[m]));
        }
    }
}

/// The cleaning pipeline as a whole, with the flags it computes itself.
pub open spec fn normalize_spec(s: Seq<char>, strategy: TabStrategy, ending: LineEnding) -> Seq<
    char,
> {
    cleaned_content(s, analysis_flags(s, Option::None, strategy), ending)
}

proof fn lemma_remove_trailing_output(s: Seq<char>)
    requires
        proper_cr(s),
    ensures
        !remove_trailing_spec(s, LineEnding::LF).contains('\r'),
        !some_line_trailing_ws(remove_trailing_spec(s, LineEnding::LF)),
        forall|c: char|
            #[trigger] remove_trailing_spec(s, LineEnding::LF).contains(c) ==> s.contains(c) || c
                == '\n',
{
    let nl = seq!['\n'];
    let lo = lines_of(s);
    let f = |l: Seq<char>| trim_end_spec(l);
    let trimmed = lo.map_values(f);
    let joined = join(trimmed, nl);
    let a = remove_trailing_spec(s, LineEnding::LF);
    assert(ending_seq(LineEnding::LF) == nl);
    if s.len() == 0 {
        assert(lo =~= Seq::<Seq<char>>::empty());
        assert(trimmed =~= Seq::<Seq<char>>::empty());
        assert(a =~= Seq::<char>::empty());
        assert(lines_of(a) =~= Seq::<Seq<char>>::empty());
        assert(!some_line_trailing_ws(a));
    } else {
        lemma_lines_no_newline(s);
        lemma_line_chars_in_content(s);
        lemma_lines_cr_free(s);
        assert(lo.len() > 0);
        assert forall|k: int, j: int|
            0 <= k < trimmed.len() && 0 <= j < trimmed[k].len() implies #[trigger] trimmed[k][j]
            != '\n' && trimmed[k][j] != '\r' by {
            lemma_trim_end_props(lo[k]);
            assert(trimmed[k] == trim_end_spec(lo[k]));
            let c = trimmed[k][j];
            assert(trimmed[k].contains(c));
            assert(lo[k].contains(c));
            let m = choose|m: int| 0 <= m < lo[k].len() && lo[k][m] == c;
            assert(lo[k][m] != '\n');
            assert(lo[k][m] != '\r');
        }
        lemma_lines_of_join_nl(trimmed);
        assert forall|k: int| 0 <= k < trimmed.len() implies !line_trailing_ws(
            #[trigger] trimmed[k],
        ) by {
            lemma_trim_end_props(lo[k]);
            assert(trimmed[k] == trim_end_spec(lo[k]));
            if trimmed[k].len() > 0 {
                assert(!whitespace_char(trimmed[k].last()));
            }
        }
        assert(!some_line_trailing_ws(a)) by {
            if some_line_trailing_ws(a) {
                let k = choose|k: int|
                    0 <= k < lines_of(a).len() && line_trailing_ws(#[trigger] lines_of(a)[k]);
                assert(lines_of(a)[k] == trimmed[k]);
            }
        }
        lemma_join_chars(trimmed, nl);
        assert forall|c: char| #[trigger] a.contains(c) implies s.contains(c) || c == '\n' by {
            if c != '\n' {
                let j = choose|j: int| 0 <= j < a.len() && a[j] == c;
                if j < joined.len() {
                    assert(joined[j] == c);
                    assert(joined.contains(c));
                } else {
                    assert(a == joined + nl);
                    assert(a[j] == nl[j - joined.len()]);
                }
                assert(joined.contains(c));
                let k = choose|k: int| 0 <= k < trimmed.len() && #[trigger] trimmed[k].contains(c);
                lemma_trim_end_props(lo[k]);
                assert(lo[k].contains(c));
            }
        }
        assert(!a.contains('\r')) by {
            if a.contains('\r') {
                let j = choose|j: int| 0 <= j < a.len() && a[j] == '\r';
                if j < joined.len() {
                    assert(joined[j] == '\r');
                    assert(joined.contains('\r'));
                } else {
                    assert(a == joined + nl);
                    assert(a[j] == nl[j - joined.len()]);
                }
                assert(joined.contains('\r'));
                let k = choose|k: int| 0 <= k < trimmed.len() && #[trigger] trimmed[k].contains('\r');
                let m = choose|m: int| 0 <= m < trimmed[k].len() && trimmed[k][m] == '\r';
            }
        }
    }
}

proof fn lemma_space_tabs_output(a: Seq<char>)
    requires
        proper_cr(a),
        !some_line_trailing_ws(a),
    ensures
        !space_tabs_spec(a, TabStrategy::Untabify, LineEnding::LF).contains('\r'),
        !space_tabs_spec(a, TabStrategy::Untabify, LineEnding::LF).contains('\t'),
        !some_line_trailing_ws(space_tabs_spec(a, TabStrategy::Untabify, LineEnding::LF)),
{
    let nl = seq!['\n'];
    let lo = lines_of(a);
    let f = |l: Seq<char>| converted_line(l, TabStrategy::Untabify, 4);
    let conv = lo.map_values(f);
    let joined = join(conv, nl);
    let n = space_tabs_spec(a, TabStrategy::Untabify, LineEnding::LF);
    assert(ending_seq(LineEnding::LF) == nl);
    let appended = a.len() > 0 && a.last() == '\n';
    assert(n == if appended {
        joined + nl
    } else {
        joined
    });
    lemma_lines_no_newline(a);
    lemma_line_chars_in_content(a);
    lemma_lines_cr_free(a);
    assert forall|k: int, j: int|
        0 <= k < conv.len() && 0 <= j < conv[k].len() implies #[trigger] conv[k][j] != '\n'
        && conv[k][j] != '\r' && conv[k][j] != '\t' by {
        assert(conv[k] == to_spaces_spec(lo[k], 4));
        lemma_to_spaces_chars(lo[k], 4, 0);
        let c = conv[k][j];
        assert(conv[k].contains(c));
        if c != ' ' {
            assert(lo[k].contains(c) && c != '\t');
            let m = choose|m: int| 0 <= m < lo[k].len() && lo[k][m] == c;
            assert(lo[k][m] != '\n');
            assert(lo[k][m] != '\r');
        }
    }
    assert forall|k: int| 0 <= k < conv.len() implies !line_trailing_ws(#[trigger] conv[k]) by {
        let l = lo[k];
        assert(conv[k] == to_spaces_spec(l, 4));
        if l.len() == 0 {
            assert(to_spaces_rec(l, 4, 0) =~= Seq::<char>::empty());
        } else {
            assert(!line_trailing_ws(lines_of(a)[k]));
            assert(l.last() != ' ' && l.last() != '\t');
            lemma_to_spaces_last(l, 4, 0);
        }
    }
    lemma_join_chars(conv, nl);
    assert forall|c: char| #[trigger] n.contains(c) implies c == '\n' || (joined.contains(c)) by {
        let j = choose|j: int| 0 <= j < n.len() && n[j] == c;
        if j < joined.len() {
            assert(joined[j] == c);
        } else {
            assert(n[j] == nl[j - joined.len()]);
        }
    }
    assert(!n.contains('\r')) by {
        if n.contains('\r') {
            assert(joined.contains('\r'));
            let k = choose|k: int| 0 <= k < conv.len() && #[trigger] conv[k].contains('\r');
            let j = choose|j: int| 0 <= j < conv[k].len() && conv[k][j] == '\r';
        }
    }
    assert(!n.contains('\t')) by {
        if n.contains('\t') {
            assert(joined.contains('\t'));
            let k = choose|k: int| 0 <= k < conv.len() && #[trigger] conv[k].contains('\t');
            let j = choose|j: int| 0 <= j < conv[k].len() && conv[k][j] == '\t';
        }
    }
    if conv.len() == 0 {
        assert(a.len() == 0) by {
            if a.len() > 0 {
                assert(lines_of(a).len() > 0);
            }
        }
        assert(!appended);
        assert(joined =~= Seq::<char>::empty());
        assert(n =~= Seq::<char>::empty());
        assert(lines_of(n) == Seq::<Seq<char>>::empty());
        assert(!some_line_trailing_ws(n));
    } else {
        lemma_lines_of_join_nl(conv);
        if appended {
            assert(lines_of(n) == conv);
        } else {
            lemma_last_line_nonempty(a);
            assert(conv.last() == f(lo.last()));
            assert(conv.last() == to_spaces_spec(lo.last(), 4));
            lemma_to_spaces_nonempty(lo.last(), 4, 0);
            assert(conv.last().len() > 0);
            assert(lines_of(n) == conv);
        }
        assert(!some_line_trailing_ws(n)) by {
            if some_line_trailing_ws(n) {
                let k = choose|k: int|
                    0 <= k < lines_of(n).len() && line_trailing_ws(#[trigger] lines_of(n)[k]);
                assert(lines_of(n)[k] == conv[k]);
            }
        }
    }
}

/// Cleaned content carries no trailing whitespace on any line, no Windows
/// line endings, and, when tab checking is in force, no tabs — for content
/// whose carriage returns all belong to Windows line breaks, cleaned to
/// line-feed endings.
pub proof fn lemma_normalize_output_compliant(s: Seq<char>, strategy: TabStrategy)
    requires
        proper_cr(s),
    ensures
        !normalize_spec(s, strategy, LineEnding::LF).contains('\r'),
        !some_line_trailing_ws(normalize_spec(s, strategy, LineEnding::LF)),
        checks_tabs(strategy) ==> !normalize_spec(s, strategy, LineEnding::LF).contains('\t'),
{
    let e = LineEnding::LF;
    let flags = analysis_flags(s, Option::None, strategy);
    lemma_analysis_flag_bits(s, Option::None, strategy);
    let trailing = flags & TRAILING_SPACES != 0;
    let tabs = flags & HAS_TABS != 0;
    let win = flags & HAS_WINDOWS_LINE_ENDINGS != 0;
    let a = if trailing {
        remove_trailing_spec(s, e)
    } else {
        s
    };
    if trailing {
        lemma_remove_trailing_output(s);
        assert(proper_cr(a)) by {
            assert forall|j: int| 0 <= j < a.len() implies #[trigger] a[j] != '\r' by {
                if a[j] == '\r' {
                    assert(a.contains(a[j]));
                }
            }
        }
    }
    assert(!some_line_trailing_ws(a));
    if !tabs && checks_tabs(strategy) {
        assert(!some_line_has_tab(s));
        crate::text::lemma_content_chars_in_lines(s);
        assert(!s.contains('\t')) by {
            if s.contains('\t') {
                let j = choose|j: int| 0 <= j < s.len() && s[j] == '\t';
                assert(exists|k: int|
                    0 <= k < lines_of(s).len() && #[trigger] lines_of(s)[k].contains(s[j]));
                let k = choose|k: int|
                    0 <= k < lines_of(s).len() && #[trigger] lines_of(s)[k].contains(s[j]);
                assert(line_has_tab(lines_of(s)[k]));
            }
        }
    }
    let b = if tabs {
        space_tabs_spec(a, TabStrategy::Untabify, e)
    } else {
        a
    };
    if tabs {
        lemma_space_tabs_output(a);
    }
    assert(!some_line_trailing_ws(b));
    assert(checks_tabs(strategy) ==> !b.contains('\t')) by {
        if checks_tabs(strategy) && !tabs && b.contains('\t') {
            if trailing {
                assert(s.contains('\t') || '\t' == '\n');
            }
        }
    }
    let n = normalize_spec(s, strategy, e);
    if win {
        assert(n == normalize_endings_spec(b, e));
        if trailing || tabs {
            assert(!b.contains('\r'));
            assert forall|j: int| 0 <= j < b.len() implies #[trigger] b[j] != '\r' by {
                if b[j] == '\r' {
                    assert(b.contains(b[j]));
                }
            }
            lemma_normalize_lf_crfree_id(b);
            assert(n == b);
        } else {
            assert(b == s);
            lemma_normalize_lf_lines(s);
            lemma_normalize_lf_chars(s);
            lemma_normalize_lf_proper_crfree(s);
            assert(!n.contains('\r')) by {
                if n.contains('\r') {
                    let j = choose|j: int| 0 <= j < n.len() && n[j] == '\r';
                }
            }
            assert(!some_line_trailing_ws(s));
            assert(!some_line_trailing_ws(n)) by {
                if some_line_trailing_ws(n) {
                    let k = choose|k: int|
                        0 <= k < lines_of(n).len() && line_trailing_ws(#[trigger] lines_of(n)[k]);
                    assert(lines_of(n)[k] == lines_of(s)[k]);
                    assert(line_trailing_ws(lines_of(s)[k]));
                }
            }
            if checks_tabs(strategy) {
                assert(!n.contains('\t')) by {
                    if n.contains('\t') {
                        assert(s.contains('\t'));
                    }
                }
            }
        }
    } else {
        assert(n == b);
        assert(!s.contains('\r')) by {
            if s.contains('\r') {
                let j = choose|j: int| 0 <= j < s.len() && s[j] == '\r';
                assert(s[j + 1] == '\n');
                assert(contains_crlf(s));
            }
        }
        assert(!b.contains('\r'));
    }
}

/// Cleaning is idempotent: applied to its own output it returns it
/// unchanged — for content whose carriage returns all belong to Windows line
/// breaks, cleaned to line-feed endings.
pub proof fn lemma_normalize_idempotent(s: Seq<char>, strategy: TabStrategy)
    requires
        proper_cr(s),
    ensures
        normalize_spec(normalize_spec(s, strategy, LineEnding::LF), strategy, LineEnding::LF)
            == normalize_spec(s, strategy, LineEnding::LF),
{
    let n = normalize_spec(s, strategy, LineEnding::LF);
    lemma_normalize_output_compliant(s, strategy);
    lemma_analysis_flag_bits(n, Option::None, strategy);
    let flags2 = analysis_flags(n, Option::None, strategy);
    assert(flags2 & TRAILING_SPACES == 0);
    assert(flags2 & HAS_TABS == 0) by {
        if some_line_has_tab(n) && checks_tabs(strategy) {
            lemma_line_chars_in_content(n);
            let k = choose|k: int|
                0 <= k < lines_of(n).len() && line_has_tab(#[trigger] lines_of(n)[k]);
            assert(lines_of(n)[k].contains('\t'));
            assert(n.contains('\t'));
        }
    }
    assert(flags2 & HAS_WINDOWS_LINE_ENDINGS == 0) by {
        if contains_crlf(n) {
            let j = choose|j: int|
                0 <= j && j + 1 < n.len() && #[trigger] n[j] == '\r' && n[j + 1] == '\n';
            assert(n.contains('\r'));
        }
    }
    assert(cleaned_content(n, flags2, LineEnding::LF) == n);
}

/// Cleaning preserves the presence of a final newline: content that ends
/// with a newline is cleaned to content that ends with a newline.
pub proof fn lemma_normalize_keeps_final_newline(
    s: Seq<char>,
    strategy: TabStrategy,
    ending: LineEnding,
)
    requires
        s.len() > 0,
        s.last() == '\n',
    ensures
        normalize_spec(s, strategy, ending).len() > 0,
        normalize_spec(s, strategy, ending).last() == '\n',
{
    let flags = analysis_flags(s, Option::None, strategy);
    let a = if flags & TRAILING_SPACES != 0 {
        remove_trailing_spec(s, ending)
    } else {
        s
    };
    assert(ending_seq(ending).last() == '\n');
    assert(a.len() > 0 && a.last() == '\n');
    let b = if flags & HAS_TABS != 0 {
        space_tabs_spec(a, TabStrategy::Untabify, ending)
    } else {
        a
    };
    assert(b.len() > 0 && b.last() == '\n');
    if flags & HAS_WINDOWS_LINE_ENDINGS != 0 {
        lemma_normalize_endings_keeps_final_newline(b, ending);
    }
}

/// Content on which no cleaning rule fires is returned unchanged by the
/// cleaning pipeline; in particular it keeps the absence of a final newline.
pub proof fn lemma_normalize_identity_when_compliant(
    s: Seq<char>,
    strategy: TabStrategy,
    ending: LineEnding,
)
    requires
        !some_line_trailing_ws(s),
        !(some_line_has_tab(s) && checks_tabs(strategy)),
        !contains_crlf(s),
    ensures
        normalize_spec(s, strategy, ending) == s,
{
    lemma_analysis_flag_bits(s, Option::None, strategy);
    let flags = analysis_flags(s, Option::None, strategy);
    assert(cleaned_content(s, flags, ending) == s);
}

/// Check one file's bytes: bytes that are not valid text yield only the
/// illegal-characters flag, with the failing lines reported at any level
/// above quiet; valid text is analyzed line by line, and, when cleaning is
/// requested, the corrected content is produced.
pub fn check_path(
    buf: &[u8],
    clean: bool,
    info_level: InfoLevel,
    max_line_length: Option<usize>,
    strategy: TabStrategy,
    ending: LineEnding,
) -> (r: CheckOutcome)
    requires
        buf@.len() <= u32::MAX,
    ensures
        r.decoded == valid_utf8(buf@),
        !valid_utf8(buf@) ==> r.flags == HAS_ILLEGAL_CHARACTERS && r.rewrite is None
            && r.events@ == (if info_level == InfoLevel::Quiet {
            Seq::<LogEvent>::empty()
        } else {
            encoding_error_events(buf@)
        }),
        valid_utf8(buf@) ==> r.flags == analysis_flags(decode_utf8(buf@), max_line_length, strategy),
        valid_utf8(buf@) ==> r.events@ == analysis_events(
            decode_utf8(buf@),
            info_level,
            max_line_length,
            strategy,
        ) + cleaning_events(r.flags, clean, info_level),
        valid_utf8(buf@) && clean ==> r.rewrite is Some && r.rewrite->0@ == cleaned_content(
            decode_utf8(buf@),
            r.flags,
            ending,
        ),
        !(valid_utf8(buf@) && clean) ==> r.rewrite is None,
{
    match utf8_str(buf) {
        Option::None => {
            let events = if info_level == InfoLevel::Quiet {
                Vec::new()
            } else {
                encoding_error_lines(buf)
            };
            CheckOutcome {
                flags: HAS_ILLEGAL_CHARACTERS,
                events,
                rewrite: Option::None,
                decoded: false,
            }
        },
        Option::Some(text) => {
            proof {
                vstd::utf8::encode_utf8_decode_utf8(text@);
                lemma_encode_len_ge(text@);
            }
            let (flags, mut events) = check_content(text, info_level, max_line_length, strategy);
            let verbose = info_level == InfoLevel::Verbose;
            let ghost ev0 = events@;
            let rewrite = if clean {
                let a: String = if flags & TRAILING_SPACES > 0 {
                    if verbose {
                        events.push(LogEvent::Cleaning { issue: Issue::TrailingSpaces });
                    }
                    remove_trailing_whitespaces(text, &ending)
                } else {
                    text.to_owned()
                };
                let b: String = if flags & HAS_TABS > 0 {
                    if verbose {
                        events.push(LogEvent::Cleaning { issue: Issue::Tabs });
                    }
                    space_tabs_conversion(a.as_str(), TabStrategy::Untabify, ending)
                } else {
                    a
                };
                let c: String = if flags & HAS_WINDOWS_LINE_ENDINGS > 0 {
                    if verbose {
                        events.push(LogEvent::Cleaning { issue: Issue::WindowsLineEndings });
                    }
                    normalize_line_endings(b.as_str(), &ending)
                } else {
                    b
                };
                Option::Some(c)
            } else {
                Option::None
            };
            proof {
                assert(events@ =~= ev0 + cleaning_events(flags, clean, info_level));
            }
            CheckOutcome { flags, events, rewrite, decoded: true }
        },
    }
}

} // verus!
