//! Path selection: glob-style ignore patterns and file-ending selectors.
//! Pattern compilation and matching are delegated to the `glob` crate; the
//! selection logic around them is specified exactly.

use vstd::prelude::*;
use vstd::string::StrSliceExecFns;

use crate::text::{chars_to_string, str_chars};

verus! {

/// Whether a glob pattern is syntactically valid: what `glob::Pattern::new`
/// accepts.
pub uninterp spec fn glob_pattern_valid(pattern: Seq<char>) -> bool;

/// Whether a valid glob pattern fully matches a string, under the glob
/// crate's default match options.
pub uninterp spec fn glob_match(pattern: Seq<char>, text: Seq<char>) -> bool;

/// Relies on `glob::Pattern::new` and `glob::Pattern::matches`: whether a
/// pattern compiles, and whether it matches a string, are functions of the
/// pattern text and the matched text alone.
#[verifier::external_body]
fn glob_full_match(pattern: &str, text: &str) -> (r: Option<bool>)
    ensures
        r is Some <==> glob_pattern_valid(pattern@),
        r is Some ==> r->0 == glob_match(pattern@, text@),
{
    match glob::Pattern::new(pattern) {
        Ok(p) => Some(p.matches(text)),
        Err(_) => None,
    }
}

/// Decide whether a glob pattern compiles.
pub fn pattern_is_valid(pattern: &str) -> (r: bool)
    ensures
        r == glob_pattern_valid(pattern@),
{
    match glob_full_match(pattern, "") {
        Option::Some(_) => true,
        Option::None => false,
    }
}

/// A path with a leading current-directory marker removed.
pub open spec fn strip_dot_slash(s: Seq<char>) -> Seq<char> {
    if s.len() >= 2 && s[0] == '.' && s[1] == '/' {
        s.skip(2)
    } else {
        s
    }
}

/// Whether an ignore pattern matches a path: the path is taken without its
/// leading current-directory marker and must be matched in full, not as a
/// substring; an invalid pattern matches nothing.
pub open spec fn pattern_matches_path(pattern: Seq<char>, path: Seq<char>) -> bool {
    glob_pattern_valid(pattern) && glob_match(pattern, strip_dot_slash(path))
}

/// Decide whether the pattern fully matches the path, after normalizing away
/// a leading current-directory marker.
pub fn path_components_matches(pattern: &str, path: &str) -> (r: bool)
    ensures
        r == pattern_matches_path(pattern@, path@),
{
    let n = path.unicode_len();
    let stripped: &str = if n >= 2 && path.get_char(0) == '.' && path.get_char(1) == '/' {
        let t = path.substring_char(2, n);
        proof {
            assert(t@ =~= strip_dot_slash(path@));
        }
        t
    } else {
        path
    };
    match glob_full_match(pattern, stripped) {
        Option::Some(m) => m,
        Option::None => false,
    }
}

/// The views of a vector of strings.
pub open spec fn string_views(v: Seq<String>) -> Seq<Seq<char>> {
    v.map_values(|s: String| s@)
}

/// Whether any configured ignore pattern matches the path.
pub open spec fn ignored_path(ignores: Seq<Seq<char>>, path: Seq<char>) -> bool {
    exists|i: int| 0 <= i < ignores.len() && pattern_matches_path(ignores[i], path)
}

/// Decide whether the path is excluded by one of the ignore patterns.
pub fn is_ignored(ignores: &Vec<String>, path: &str) -> (r: bool)
    ensures
        r == ignored_path(string_views(ignores@), path@),
{
    let mut i: usize = 0;
    while i < ignores.len()
        invariant
            i <= ignores@.len(),
            forall|j: int|
                0 <= j < i ==> !pattern_matches_path(#[trigger] string_views(ignores@)[j], path@),
        decreases ignores@.len() - i,
    {
        if path_components_matches(ignores[i].as_str(), path) {
            assert(pattern_matches_path(string_views(ignores@)[i as int], path@));
            return true;
        }
        i += 1;
    }
    false
}

/// A file-ending selector with every legacy glob decoration (`"**/*"`)
/// removed, scanning left to right without overlap.
pub open spec fn strip_glob_decoration(s: Seq<char>) -> Seq<char>
    decreases s.len(),
{
    if s.len() == 0 {
        Seq::empty()
    } else if s.len() >= 4 && s[0] == '*' && s[1] == '*' && s[2] == '/' && s[3] == '*' {
        strip_glob_decoration(s.skip(4))
    } else {
        seq![s[0]] + strip_glob_decoration(s.skip(1))
    }
}

fn strip_glob_decoration_chars(v: &Vec<char>) -> (r: Vec<char>)
    ensures
        r@ == strip_glob_decoration(v@),
{
    let mut out: Vec<char> = Vec::new();
    let mut i: usize = 0;
    proof {
        assert(v@.skip(0) =~= v@);
    }
    while i < v.len()
        invariant
            i <= v@.len(),
            strip_glob_decoration(v@) == out@ + strip_glob_decoration(v@.skip(i as int)),
        decreases v@.len() - i,
    {
        let t = v.len() - i;
        if t >= 4 && v[i] == '*' && v[i + 1] == '*' && v[i + 2] == '/' && v[i + 3] == '*' {
            proof {
                let s = v@.skip(i as int);
                assert(s[0] == '*' && s[1] == '*' && s[2] == '/' && s[3] == '*');
                assert(s.skip(4) =~= v@.skip(i + 4));
            }
            i += 4;
        } else {
            proof {
                let s = v@.skip(i as int);
                assert(s[0] == v@[i as int]);
                assert(s.len() >= 4 ==> (s[1] == v@[i + 1] && s[2] == v@[i + 2] && s[3] == v@[i
                    + 3]));
                assert(s.skip(1) =~= v@.skip(i + 1));
                assert(out@ + (seq![s[0]] + strip_glob_decoration(v@.skip(i + 1))) =~= out@.push(
                    s[0],
                ) + strip_glob_decoration(v@.skip(i + 1)));
            }
            out.push(v[i]);
            i += 1;
        }
    }
    proof {
        assert(v@.skip(v@.len() as int) =~= Seq::<char>::empty());
        assert(out@ + Seq::<char>::empty() =~= out@);
    }
    out
}

/// Remove the legacy glob decoration from one file-ending selector.
pub fn normalize_ending(ending: &str) -> (r: String)
    ensures
        r@ == strip_glob_decoration(ending@),
{
    let chars = str_chars(ending);
    let out = strip_glob_decoration_chars(&chars);
    chars_to_string(&out)
}

/// `suffix` is a suffix of `s`.
pub open spec fn suffix_of(suffix: Seq<char>, s: Seq<char>) -> bool {
    suffix.len() <= s.len() && s.skip(s.len() - suffix.len()) == suffix
}

fn ends_with_chars(s: &Vec<char>, suffix: &Vec<char>) -> (r: bool)
    ensures
        r == suffix_of(suffix@, s@),
{
    if suffix.len() > s.len() {
        return false;
    }
    let off = s.len() - suffix.len();
    let mut i: usize = 0;
    while i < suffix.len()
        invariant
            i <= suffix@.len(),
            suffix@.len() + off == s@.len(),
            s@.len() <= usize::MAX,
            forall|j: int| 0 <= j < i ==> s@[off + j] == suffix@[j],
        decreases suffix@.len() - i,
    {
        assert(off + i < s@.len());
        if s[off + i] != suffix[i] {
            assert(s@.skip(off as int)[i as int] != suffix@[i as int]);
            return false;
        }
        i += 1;
    }
    proof {
        assert(s@.skip(off as int) =~= suffix@);
    }
    true
}

/// Whether a file name is selected by one of the ending selectors: the file
/// name must end with the selector, after its legacy glob decoration is
/// removed.
pub open spec fn selected_by_endings(name: Seq<char>, endings: Seq<Seq<char>>) -> bool {
    exists|i: int|
        0 <= i < endings.len() && suffix_of(strip_glob_decoration(endings[i]), name)
}

/// Decide whether the file name is selected by one of the ending selectors.
pub fn file_selected(name: &str, endings: &Vec<String>) -> (r: bool)
    ensures
        r == selected_by_endings(name@, string_views(endings@)),
{
    let name_chars = str_chars(name);
    let mut i: usize = 0;
    while i < endings.len()
        invariant
            i <= endings@.len(),
            name_chars@ == name@,
            forall|j: int|
                0 <= j < i ==> !suffix_of(
                    strip_glob_decoration(#[trigger] string_views(endings@)[j]),
                    name@,
                ),
        decreases endings@.len() - i,
    {
        let e = str_chars(endings[i].as_str());
        let stripped = strip_glob_decoration_chars(&e);
        if ends_with_chars(&name_chars, &stripped) {
            assert(suffix_of(strip_glob_decoration(string_views(endings@)[i as int]), name@));
            return true;
        }
        i += 1;
    }
    false
}

} // verus!
