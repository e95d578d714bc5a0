//! Configuration: the ignore patterns and file-ending selectors, loaded from
//! a TOML document with the two required keys `ignore` and `endings`, and the
//! rewriting of old-style entries into full glob patterns.

use vstd::prelude::*;

use crate::search::{glob_pattern_valid, pattern_is_valid, string_views};
use crate::text::{chars_to_string, str_chars};

verus! {

/// The scanning configuration: ordered ignore patterns and ordered
/// file-ending selectors.
#[derive(Debug)]
pub struct EnforcerCfg {
    pub ignore: Vec<String>,
    pub endings: Vec<String>,
}

/// Why a configuration document was rejected.
#[derive(Clone, Copy, Debug, PartialEq, Eq, Structural)]
pub enum ConfigError {
    /// The document does not parse, or a required key holds something other
    /// than an array of strings.
    Invalid,
    /// The required `ignore` key is absent.
    MissingIgnore,
    /// The required `endings` key is absent.
    MissingEndings,
    /// An ignore entry is, after rewriting, not a valid glob pattern.
    InvalidPattern,
}

/// Shorthand for making an owned string.
pub fn s(x: &str) -> (r: String)
    ensures
        r@ == x@,
{
    x.to_owned()
}

fn string_vec_eq(a: &Vec<String>, b: &Vec<String>) -> (r: bool)
    ensures
        r == (string_views(a@) == string_views(b@)),
{
    if a.len() != b.len() {
        assert(string_views(a@).len() != string_views(b@).len());
        return false;
    }
    let mut i: usize = 0;
    while i < a.len()
        invariant
            i <= a@.len() == b@.len(),
            forall|j: int| 0 <= j < i ==> #[trigger] string_views(a@)[j] == string_views(b@)[j],
        decreases a@.len() - i,
    {
        if !a[i].eq(&b[i]) {
            assert(string_views(a@)[i as int] != string_views(b@)[i as int]);
            return false;
        }
        i += 1;
    }
    proof {
        assert(string_views(a@) =~= string_views(b@));
    }
    true
}

impl PartialEq for EnforcerCfg {
    fn eq(&self, other: &EnforcerCfg) -> (r: bool) {
        string_vec_eq(&self.ignore, &other.ignore) && string_vec_eq(&self.endings, &other.endings)
    }
}

impl vstd::std_specs::cmp::PartialEqSpecImpl for EnforcerCfg {
    open spec fn obeys_eq_spec() -> bool {
        true
    }

    open spec fn eq_spec(&self, other: &EnforcerCfg) -> bool {
        string_views(self.ignore@) == string_views(other.ignore@) && string_views(self.endings@)
            == string_views(other.endings@)
    }
}

/// The default configuration, used when no configuration file can be read.
pub fn default_cfg() -> (r: EnforcerCfg)
    ensures
        string_views(r.ignore@) == seq!["**/.git"@, "**/.bake"@, "**/.repo"@],
        string_views(r.endings@) == seq![".c"@, ".cpp"@, ".h"@],
{
    let ignore = vec![s("**/.git"), s("**/.bake"), s("**/.repo")];
    let endings = vec![s(".c"), s(".cpp"), s(".h")];
    proof {
        assert(string_views(ignore@) =~= seq!["**/.git"@, "**/.bake"@, "**/.repo"@]);
        assert(string_views(endings@) =~= seq![".c"@, ".cpp"@, ".h"@]);
    }
    EnforcerCfg { ignore, endings }
}

/// The characters allowed in a bare path-component or file-suffix entry.
pub open spec fn word_char(c: char) -> bool {
    ||| (97 <= c as u32 && c as u32 <= 122)
    ||| (65 <= c as u32 && c as u32 <= 90)
    ||| (48 <= c as u32 && c as u32 <= 57)
    ||| c == '_'
    ||| c == '-'
}

fn is_word_char(c: char) -> (r: bool)
    ensures
        r == word_char(c),
{
    let u = c as u32;
    (97 <= u && u <= 122) || (65 <= u && u <= 90) || (48 <= u && u <= 57) || c == '_' || c == '-'
}

pub open spec fn all_word_chars(p: Seq<char>) -> bool {
    forall|i: int| 0 <= i < p.len() ==> word_char(#[trigger] p[i])
}

/// An old-style path-component entry: one or more word characters, optionally
/// followed by a single trailing `'*'`.
pub open spec fn matches_component(p: Seq<char>) -> bool {
    if p.len() > 0 && p.last() == '*' {
        p.len() >= 2 && all_word_chars(p.drop_last())
    } else {
        p.len() >= 1 && all_word_chars(p)
    }
}

/// The prefix of an old-style file-suffix entry: empty, a single `'*'`, or
/// one or more word characters.
pub open spec fn suffix_prefix_ok(p: Seq<char>) -> bool {
    ||| p.len() == 0
    ||| (p.len() == 1 && p[0] == '*')
    ||| (p.len() >= 1 && all_word_chars(p))
}

/// An old-style file-suffix entry: a prefix, a dot, then one or more word
/// characters with an optional trailing `'*'`.
pub open spec fn matches_suffix(s: Seq<char>) -> bool {
    exists|i: int|
        0 <= i < s.len() && s[i] == '.' && #[trigger] suffix_prefix_ok(s.take(i))
            && matches_component(s.skip(i + 1))
}

fn all_word_chars_range(v: &Vec<char>, from: usize, to: usize) -> (r: bool)
    requires
        from <= to <= v@.len(),
    ensures
        r == all_word_chars(v@.subrange(from as int, to as int)),
{
    let mut i: usize = from;
    while i < to
        invariant
            from <= i <= to <= v@.len(),
            forall|j: int| from <= j < i ==> word_char(#[trigger] v@[j]),
        decreases to - i,
    {
        if !is_word_char(v[i]) {
            assert(v@.subrange(from as int, to as int)[i - from as int] == v@[i as int]);
            return false;
        }
        i += 1;
    }
    proof {
        let p = v@.subrange(from as int, to as int);
        assert(forall|j: int| 0 <= j < p.len() ==> p[j] == v@[from + j]);
    }
    true
}

fn matches_component_range(v: &Vec<char>, from: usize, to: usize) -> (r: bool)
    requires
        from <= to <= v@.len(),
    ensures
        r == matches_component(v@.subrange(from as int, to as int)),
{
    let ghost p = v@.subrange(from as int, to as int);
    if to == from {
        return false;
    }
    if v[to - 1] == '*' {
        proof {
            assert(p.last() == v@[to - 1]);
            assert(p.drop_last() =~= v@.subrange(from as int, to - 1));
        }
        to - from >= 2 && all_word_chars_range(v, from, to - 1)
    } else {
        proof {
            assert(p.last() == v@[to - 1]);
        }
        all_word_chars_range(v, from, to)
    }
}

fn matches_component_chars(v: &Vec<char>) -> (r: bool)
    ensures
        r == matches_component(v@),
{
    proof {
        assert(v@.subrange(0, v@.len() as int) =~= v@);
    }
    matches_component_range(v, 0, v.len())
}

fn suffix_prefix_ok_range(v: &Vec<char>, to: usize) -> (r: bool)
    requires
        to <= v@.len(),
    ensures
        r == suffix_prefix_ok(v@.subrange(0, to as int)),
{
    let ghost p = v@.subrange(0, to as int);
    if to == 0 {
        return true;
    }
    if to == 1 && v[0] == '*' {
        assert(p[0] == v@[0]);
        return true;
    }
    proof {
        assert(p[0] == v@[0]);
    }
    all_word_chars_range(v, 0, to)
}

proof fn lemma_word_chars_have_no_dot(p: Seq<char>)
    ensures
        all_word_chars(p) ==> forall|j: int| 0 <= j < p.len() ==> p[j] != '.',
        suffix_prefix_ok(p) ==> forall|j: int| 0 <= j < p.len() ==> p[j] != '.',
{
    if all_word_chars(p) {
        assert forall|j: int| 0 <= j < p.len() implies p[j] != '.' by {
            assert(word_char(p[j]));
        }
    }
}

fn matches_suffix_chars(v: &Vec<char>) -> (r: bool)
    ensures
        r == matches_suffix(v@),
{
    let mut i: usize = 0;
    while i < v.len()
        invariant
            i <= v@.len(),
            forall|j: int| 0 <= j < i ==> v@[j] != '.',
        decreases v@.len() - i,
    {
        if v[i] == '.' {
            let pok = suffix_prefix_ok_range(v, i);
            let ghost tail = v@.subrange(i + 1, v@.len() as int);
            proof {
                assert(tail =~= v@.skip(i + 1));
            }
            let tok = matches_component_range(v, i + 1, v.len());
            let r = pok && tok;
            proof {
                if r {
                    assert(v@[i as int] == '.' && suffix_prefix_ok(v@.take(i as int))
                        && matches_component(v@.skip(i + 1))) by {
                        assert(v@.take(i as int) =~= v@.subrange(0, i as int));
                    }
                } else {
                    assert forall|k: int|
                        0 <= k < v@.len() && v@[k] == '.' && #[trigger] suffix_prefix_ok(
                            v@.take(k),
                        ) implies !matches_component(v@.skip(k + 1)) by {
                        if k < i {
                            assert(v@[k] != '.');
                        } else if k > i {
                            lemma_word_chars_have_no_dot(v@.take(k));
                            assert(v@.take(k)[i as int] == v@[i as int]);
                            assert(false);
                        } else {
                            assert(v@.take(k) =~= v@.subrange(0, i as int));
                        }
                    }
                }
            }
            return r;
        }
        i += 1;
    }
    false
}

/// The glob decoration put in front of a rewritten entry.
pub open spec fn glob_prefix() -> Seq<char> {
    seq!['*', '*', '/']
}

/// The glob decoration put behind a rewritten path-component entry.
pub open spec fn glob_suffix() -> Seq<char> {
    seq!['/', '*', '*']
}

/// How one old-style ignore entry is rewritten: a bare path component is
/// wrapped into a full glob matching it at any depth together with its whole
/// subtree; a bare file suffix is prefixed so it matches at any depth; any
/// other entry is kept as it is.
pub open spec fn suggestion_spec(p: Seq<char>) -> Seq<char> {
    if matches_component(p) {
        glob_prefix() + p + glob_suffix()
    } else if matches_suffix(p) {
        glob_prefix() + p
    } else {
        p
    }
}

/// Rewrite one old-style ignore entry into a full glob pattern.
pub fn suggestion(entry: &str) -> (r: String)
    ensures
        r@ == suggestion_spec(entry@),
{
    let chars = str_chars(entry);
    let mut out: Vec<char> = Vec::new();
    if matches_component_chars(&chars) {
        out.push('*');
        out.push('*');
        out.push('/');
        let mut i: usize = 0;
        while i < chars.len()
            invariant
                i <= chars@.len(),
                out@ == glob_prefix() + chars@.take(i as int),
            decreases chars@.len() - i,
        {
            out.push(chars[i]);
            assert(out@ =~= glob_prefix() + chars@.take(i + 1));
            i += 1;
        }
        out.push('/');
        out.push('*');
        out.push('*');
        proof {
            assert(chars@.take(chars@.len() as int) =~= chars@);
            assert(out@ =~= glob_prefix() + entry@ + glob_suffix());
        }
    } else if matches_suffix_chars(&chars) {
        out.push('*');
        out.push('*');
        out.push('/');
        let mut i: usize = 0;
        while i < chars.len()
            invariant
                i <= chars@.len(),
                out@ == glob_prefix() + chars@.take(i as int),
            decreases chars@.len() - i,
        {
            out.push(chars[i]);
            assert(out@ =~= glob_prefix() + chars@.take(i + 1));
            i += 1;
        }
        proof {
            assert(chars@.take(chars@.len() as int) =~= chars@);
        }
    } else {
        let mut i: usize = 0;
        while i < chars.len()
            invariant
                i <= chars@.len(),
                out@ == chars@.take(i as int),
            decreases chars@.len() - i,
        {
            out.push(chars[i]);
            assert(out@ =~= chars@.take(i + 1));
            i += 1;
        }
        proof {
            assert(chars@.take(chars@.len() as int) =~= chars@);
        }
    }
    chars_to_string(&out)
}

/// Rewrite every old-style ignore entry; the ending selectors are kept.
pub fn fix_config(cfg: &EnforcerCfg) -> (r: EnforcerCfg)
    ensures
        string_views(r.ignore@) == string_views(cfg.ignore@).map_values(
            |p: Seq<char>| suggestion_spec(p),
        ),
        string_views(r.endings@) == string_views(cfg.endings@),
{
    let ghost f = |p: Seq<char>| suggestion_spec(p);
    let mut ignore: Vec<String> = Vec::new();
    let mut i: usize = 0;
    proof {
        assert(string_views(ignore@) =~= string_views(cfg.ignore@).take(0).map_values(f));
    }
    while i < cfg.ignore.len()
        invariant
            i <= cfg.ignore@.len(),
            string_views(ignore@) == string_views(cfg.ignore@).take(i as int).map_values(f),
            f == (|p: Seq<char>| suggestion_spec(p)),
        decreases cfg.ignore@.len() - i,
    {
        let v = suggestion(cfg.ignore[i].as_str());
        proof {
            let sv = string_views(cfg.ignore@);
            assert(v@ == f(sv[i as int]));
            assert(string_views(ignore@.push(v)) =~= string_views(ignore@).push(v@));
            assert(sv.take(i + 1).map_values(f) =~= sv.take(i as int).map_values(f).push(
                f(sv[i as int]),
            ));
        }
        ignore.push(v);
        i += 1;
    }
    proof {
        let sv = string_views(cfg.ignore@);
        assert(sv.take(sv.len() as int) =~= sv);
    }
    let mut endings: Vec<String> = Vec::new();
    let mut j: usize = 0;
    proof {
        assert(string_views(endings@) =~= string_views(cfg.endings@).take(0));
    }
    while j < cfg.endings.len()
        invariant
            j <= cfg.endings@.len(),
            string_views(endings@) == string_views(cfg.endings@).take(j as int),
        decreases cfg.endings@.len() - j,
    {
        let v = cfg.endings[j].clone();
        proof {
            assert(string_views(endings@.push(v)) =~= string_views(endings@).push(v@));
            assert(string_views(cfg.endings@).take(j + 1) =~= string_views(cfg.endings@).take(
                j as int,
            ).push(string_views(cfg.endings@)[j as int]));
        }
        endings.push(v);
        j += 1;
    }
    proof {
        let sv = string_views(cfg.endings@);
        assert(sv.take(sv.len() as int) =~= sv);
    }
    EnforcerCfg { ignore, endings }
}

/// Whether a document is a well-formed TOML document.
pub uninterp spec fn toml_doc_parses(doc: Seq<char>) -> bool;

/// Whether a well-formed TOML document has a top-level key.
pub uninterp spec fn toml_key_present(doc: Seq<char>, key: Seq<char>) -> bool;

/// The strings under a top-level key of a well-formed TOML document, when
/// that key holds an array of strings.
pub uninterp spec fn toml_string_list_of(doc: Seq<char>, key: Seq<char>) -> Option<Seq<Seq<char>>>;

/// Relies on `str::parse::<toml::Table>`: whether a document parses depends
/// on the document text alone.
#[verifier::external_body]
fn toml_parses(doc: &str) -> (r: bool)
    ensures
        r == toml_doc_parses(doc@),
{
    doc.parse::<toml::Table>().is_ok()
}

/// Relies on `toml::map::Map::contains_key`: whether a parsed document has a
/// top-level key depends on the document text and the key alone.
#[verifier::external_body]
fn toml_has_key(doc: &str, key: &str) -> (r: bool)
    ensures
        r == toml_key_present(doc@, key@),
        r ==> toml_doc_parses(doc@),
{
    match doc.parse::<toml::Table>() {
        Ok(t) => t.contains_key(key),
        Err(_) => false,
    }
}

/// Relies on `toml::map::Map::get`, `toml::Value::as_array` and
/// `toml::Value::as_str`: the strings under a key of a parsed document depend
/// on the document text and the key alone, and exist exactly when the key
/// holds an array of strings.
#[verifier::external_body]
fn toml_string_list(doc: &str, key: &str) -> (r: Option<Vec<String>>)
    ensures
        r is Some <==> toml_string_list_of(doc@, key@) is Some,
        r is Some ==> string_views(r->0@) == toml_string_list_of(doc@, key@)->0,
        r is Some ==> toml_doc_parses(doc@) && toml_key_present(doc@, key@),
{
    let t: toml::Table = doc.parse().ok()?;
    let arr = t.get(key)?.as_array()?;
    arr.iter().map(|v| v.as_str().map(|s| s.to_string())).collect()
}

/// Parse a configuration document: the two required keys `ignore` and
/// Every pattern of the list is a valid glob pattern.
pub open spec fn all_patterns_valid(ps: Seq<Seq<char>>) -> bool {
    forall|i: int| 0 <= i < ps.len() ==> glob_pattern_valid(#[trigger] ps[i])
}

/// The document parses and both required keys hold arrays of strings.
pub open spec fn config_lists_ok(doc: Seq<char>) -> bool {
    &&& toml_doc_parses(doc)
    &&& toml_key_present(doc, "ignore"@)
    &&& toml_key_present(doc, "endings"@)
    &&& toml_string_list_of(doc, "ignore"@) is Some
    &&& toml_string_list_of(doc, "endings"@) is Some
}

/// The ignore entries of a well-formed document, after rewriting.
pub open spec fn rewritten_ignores(doc: Seq<char>) -> Seq<Seq<char>> {
    toml_string_list_of(doc, "ignore"@)->0.map_values(|p: Seq<char>| suggestion_spec(p))
}

fn all_patterns_compile(ps: &Vec<String>) -> (r: bool)
    ensures
        r == all_patterns_valid(string_views(ps@)),
{
    let mut i: usize = 0;
    while i < ps.len()
        invariant
            i <= ps@.len(),
            forall|j: int| 0 <= j < i ==> glob_pattern_valid(#[trigger] string_views(ps@)[j]),
        decreases ps@.len() - i,
    {
        if !pattern_is_valid(ps[i].as_str()) {
            assert(!glob_pattern_valid(string_views(ps@)[i as int]));
            return false;
        }
        i += 1;
    }
    true
}

/// Parse a configuration document: the two required keys `ignore` and
/// `endings` must hold arrays of strings, old-style ignore entries are
/// rewritten into full glob patterns, and every resulting ignore pattern
/// must be a valid glob pattern.
pub fn parse_config(input: &str) -> (r: Result<EnforcerCfg, ConfigError>)
    ensures
        !toml_doc_parses(input@) ==> r == Result::<EnforcerCfg, ConfigError>::Err(
            ConfigError::Invalid,
        ),
        toml_doc_parses(input@) && !toml_key_present(input@, "ignore"@) ==> r == Result::<
            EnforcerCfg,
            ConfigError,
        >::Err(ConfigError::MissingIgnore),
        toml_doc_parses(input@) && toml_key_present(input@, "ignore"@) && !toml_key_present(
            input@,
            "endings"@,
        ) ==> r == Result::<EnforcerCfg, ConfigError>::Err(ConfigError::MissingEndings),
        toml_doc_parses(input@) && toml_key_present(input@, "ignore"@) && toml_key_present(
            input@,
            "endings"@,
        ) && (toml_string_list_of(input@, "ignore"@) is None || toml_string_list_of(
            input@,
            "endings"@,
        ) is None) ==> r == Result::<EnforcerCfg, ConfigError>::Err(ConfigError::Invalid),
        config_lists_ok(input@) && !all_patterns_valid(rewritten_ignores(input@)) ==> r
            == Result::<EnforcerCfg, ConfigError>::Err(ConfigError::InvalidPattern),
        config_lists_ok(input@) && all_patterns_valid(rewritten_ignores(input@)) ==> r is Ok
            && string_views(r->Ok_0.ignore@) == rewritten_ignores(input@) && string_views(
            r->Ok_0.endings@,
        ) == toml_string_list_of(input@, "endings"@)->0,
{
    if !toml_parses(input) {
        return Result::Err(ConfigError::Invalid);
    }
    if !toml_has_key(input, "ignore") {
        return Result::Err(ConfigError::MissingIgnore);
    }
    if !toml_has_key(input, "endings") {
        return Result::Err(ConfigError::MissingEndings);
    }
    let ig = toml_string_list(input, "ignore");
    let en = toml_string_list(input, "endings");
    match (ig, en) {
        (Option::Some(ignore), Option::Some(endings)) => {
            let cfg = EnforcerCfg { ignore, endings };
            let fixed = fix_config(&cfg);
            if !all_patterns_compile(&fixed.ignore) {
                return Result::Err(ConfigError::InvalidPattern);
            }
            Result::Ok(fixed)
        },
        _ => Result::Err(ConfigError::Invalid),
    }
}

} // verus!
