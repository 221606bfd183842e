//! Parsing of the plain-text search-path configuration: one directory per
//! line, `#` comments, and `include` directives naming glob patterns.
//! Expanding an include pattern needs the filesystem and is the caller's
//! part; this module only recognizes the directives.

use vstd::prelude::*;
use vstd::string::StrSliceExecFns;
use vstd::string::StringExecFns;
use crate::pathname::starts_with_chars;

verus! {

/// The search-path configuration: directories to scan, in order.
#[derive(Debug, Clone)]
pub struct LibraryConfig {
    directories: Vec<String>,
}

/// A whitespace character for the purposes of line trimming.
pub open spec fn is_ws(c: char) -> bool {
    c == ' ' || c == '\t' || c == '\r'
}

/// `s` with leading whitespace removed.
pub open spec fn trim_front(s: Seq<char>) -> Seq<char>
    decreases s.len(),
{
    if s.len() > 0 && is_ws(s[0]) {
        trim_front(s.drop_first())
    } else {
        s
    }
}

/// `s` with trailing whitespace removed.
pub open spec fn trim_back(s: Seq<char>) -> Seq<char>
    decreases s.len(),
{
    if s.len() > 0 && is_ws(s[s.len() - 1]) {
        trim_back(s.drop_last())
    } else {
        s
    }
}

/// `s` with whitespace removed from both ends.
pub open spec fn trim_chars(s: Seq<char>) -> Seq<char> {
    trim_back(trim_front(s))
}

/// Index of the first line break at or after `i`, or the length.
pub open spec fn line_end(c: Seq<char>, i: int) -> int
    decreases c.len() - i when 0 <= i <= c.len()
{
    if i >= c.len() {
        c.len() as int
    } else if c[i] == '\n' {
        i
    } else {
        line_end(c, i + 1)
    }
}

proof fn lemma_line_end_bounds(c: Seq<char>, i: int)
    requires
        0 <= i <= c.len(),
    ensures
        i <= line_end(c, i) <= c.len(),
    decreases c.len() - i,
{
    if i < c.len() && c[i] != '\n' {
        lemma_line_end_bounds(c, i + 1);
    }
}

proof fn lemma_line_end_exact(c: Seq<char>, i: int, j: int)
    requires
        0 <= i <= j <= c.len(),
        forall|t: int| i <= t < j ==> c[t] != '\n',
        j < c.len() ==> c[j] == '\n',
    ensures
        line_end(c, i) == j,
    decreases j - i,
{
    if i < j {
        lemma_line_end_exact(c, i + 1, j);
    }
}

/// The directories named by the content from position `i` on: one trimmed
/// line each, passing over blank lines, `#` comments and `include`
/// directives.
pub open spec fn spec_dirs_from(c: Seq<char>, i: int) -> Seq<Seq<char>>
    decreases c.len() + 1 - i when 0 <= i <= c.len() + 1
        via dirs_from_decreases
{
    if i > c.len() {
        Seq::empty()
    } else {
        let e = line_end(c, i);
        let l = trim_chars(c.subrange(i, e));
        let rest = spec_dirs_from(c, e + 1);
        if l.len() == 0 || l[0] == '#' || starts_with_chars(l, "include "@) {
            rest
        } else {
            seq![l] + rest
        }
    }
}

#[via_fn]
proof fn dirs_from_decreases(c: Seq<char>, i: int) {
    if 0 <= i <= c.len() {
        lemma_line_end_bounds(c, i);
    }
}

/// The include patterns named by the content from position `i` on: what
/// follows each `include ` keyword, trimmed.
pub open spec fn spec_includes_from(c: Seq<char>, i: int) -> Seq<Seq<char>>
    decreases c.len() + 1 - i when 0 <= i <= c.len() + 1
        via includes_from_decreases
{
    if i > c.len() {
        Seq::empty()
    } else {
        let e = line_end(c, i);
        let l = trim_chars(c.subrange(i, e));
        let rest = spec_includes_from(c, e + 1);
        if l.len() > 0 && l[0] != '#' && starts_with_chars(l, "include "@) {
            seq![trim_chars(l.skip(8))] + rest
        } else {
            rest
        }
    }
}

#[via_fn]
proof fn includes_from_decreases(c: Seq<char>, i: int) {
    if 0 <= i <= c.len() {
        lemma_line_end_bounds(c, i);
    }
}

/// The default search directories.
pub open spec fn spec_default_dirs() -> Seq<Seq<char>> {
    seq!["/lib"@, "/usr/lib"@, "/lib64"@, "/usr/lib64"@]
}

/// Whitespace stripped from the front is an index-based cut.
proof fn lemma_trim_front_exact(s: Seq<char>, a: int)
    requires
        0 <= a <= s.len(),
        forall|t: int| 0 <= t < a ==> is_ws(s[t]),
        a < s.len() ==> !is_ws(s[a]),
    ensures
        trim_front(s) == s.skip(a),
    decreases a,
{
    if a == 0 {
        if s.len() > 0 && is_ws(s[0]) {
            assert(false);
        }
        assert(s.skip(0) =~= s);
    } else {
        let d = s.drop_first();
        assert forall|t: int| 0 <= t < a - 1 implies is_ws(#[trigger] d[t]) by {
            assert(d[t] == s[t + 1]);
        }
        lemma_trim_front_exact(d, a - 1);
        assert(d.skip(a - 1) =~= s.skip(a));
    }
}

/// Whitespace stripped from the back is an index-based cut.
proof fn lemma_trim_back_exact(s: Seq<char>, b: int)
    requires
        0 <= b <= s.len(),
        forall|t: int| b <= t < s.len() ==> is_ws(s[t]),
        b > 0 ==> !is_ws(s[b - 1]),
    ensures
        trim_back(s) == s.take(b),
    decreases s.len() - b,
{
    if b == s.len() {
        if s.len() > 0 && is_ws(s[s.len() - 1]) {
            assert(false);
        }
        assert(s.take(b) =~= s);
    } else {
        let d = s.drop_last();
        assert forall|t: int| b <= t < d.len() implies is_ws(#[trigger] d[t]) by {
            assert(d[t] == s[t]);
        }
        lemma_trim_back_exact(d, b);
        assert(d.take(b) =~= s.take(b));
    }
}

/// Whether `c` is whitespace for line trimming.
fn char_is_ws(c: char) -> (r: bool)
    ensures
        r == is_ws(c),
{
    c == ' ' || c == '\t' || c == '\r'
}

/// Trim a string slice at both ends.
fn trim_str<'a>(s: &'a str) -> (r: &'a str)
    ensures
        r@ == trim_chars(s@),
{
    let len = s.unicode_len();
    let mut a: usize = 0;
    while a < len && char_is_ws(s.get_char(a))
        invariant
            0 <= a <= len,
            len == s@.len(),
            forall|t: int| 0 <= t < a ==> is_ws(#[trigger] s@[t]),
        decreases len - a,
    {
        a = a + 1;
    }
    let mut b: usize = len;
    while b > a && char_is_ws(s.get_char(b - 1))
        invariant
            a <= b <= len,
            len == s@.len(),
            a < len ==> !is_ws(s@[a as int]),
            forall|t: int| 0 <= t < a ==> is_ws(#[trigger] s@[t]),
            forall|t: int| b <= t < len ==> is_ws(#[trigger] s@[t]),
        decreases b,
    {
        b = b - 1;
    }
    proof {
        lemma_trim_front_exact(s@, a as int);
        let f = s@.skip(a as int);
        if b == a {
            assert forall|t: int| 0 <= t < f.len() implies is_ws(#[trigger] f[t]) by {
                assert(f[t] == s@[t + a]);
            }
            lemma_trim_back_exact(f, 0);
            assert(f.take(0) =~= s@.subrange(a as int, a as int));
        } else {
            assert(!is_ws(s@[b - 1]));
            assert forall|t: int| b - a <= t < f.len() implies is_ws(#[trigger] f[t]) by {
                assert(f[t] == s@[t + a]);
            }
            assert(f[b - a - 1] == s@[b - 1]);
            lemma_trim_back_exact(f, b - a);
            assert(f.take(b - a) =~= s@.subrange(a as int, b as int));
        }
    }
    s.substring_char(a, b)
}

/// Parse configuration text: the directories it lists, in order, and the
/// include patterns it names, in order. Blank lines and `#` comments are
/// passed over. Expanding the patterns against the filesystem is the
/// caller's part.
pub fn parse_config_content(content: &str) -> (r: (Vec<String>, Vec<String>))
    requires
        content@.len() < usize::MAX,
    ensures
        r.0@.map_values(|s: String| s@) == spec_dirs_from(content@, 0),
        r.1@.map_values(|s: String| s@) == spec_includes_from(content@, 0),
{
    let len = content.unicode_len();
    let mut dirs: Vec<String> = Vec::new();
    let mut includes: Vec<String> = Vec::new();
    let mut i: usize = 0;
    proof {
        assert(dirs@.map_values(|s: String| s@) + spec_dirs_from(content@, 0) =~= spec_dirs_from(
            content@,
            0,
        ));
        assert(includes@.map_values(|s: String| s@) + spec_includes_from(content@, 0)
            =~= spec_includes_from(content@, 0));
    }
    while i <= len
        invariant
            0 <= i <= len + 1,
            len == content@.len(),
            len < usize::MAX,
            dirs@.map_values(|s: String| s@) + spec_dirs_from(content@, i as int)
                == spec_dirs_from(content@, 0),
            includes@.map_values(|s: String| s@) + spec_includes_from(content@, i as int)
                == spec_includes_from(content@, 0),
        decreases len + 1 - i,
    {
        let mut e: usize = i;
        while e < len && content.get_char(e) != '\n'
            invariant
                i <= e <= len,
                len == content@.len(),
                forall|t: int| i <= t < e ==> content@[t] != '\n',
            decreases len - e,
        {
            e = e + 1;
        }
        proof {
            lemma_line_end_exact(content@, i as int, e as int);
        }
        let raw = content.substring_char(i, e);
        let line = trim_str(raw);
        let ll = line.unicode_len();
        let ghost dm = dirs@.map_values(|s: String| s@);
        let ghost im = includes@.map_values(|s: String| s@);
        if ll == 0 || line.get_char(0) == '#' {
            // Comment or blank line.
        } else if crate::pathname::starts_with(line, "include ") {
            proof {
                reveal_strlit("include ");
            }
            let pat = trim_str(line.substring_char(8, ll));
            includes.push(String::from_str(pat));
            proof {
                assert(includes@.map_values(|s: String| s@) =~= im.push(trim_chars(
                    line@.skip(8),
                )));
                assert(im.push(trim_chars(line@.skip(8))) + spec_includes_from(content@, e + 1)
                    =~= im + (seq![trim_chars(line@.skip(8))] + spec_includes_from(
                    content@,
                    e + 1,
                )));
            }
        } else {
            proof {
                reveal_strlit("include ");
            }
            dirs.push(String::from_str(line));
            proof {
                assert(dirs@.map_values(|s: String| s@) =~= dm.push(line@));
                assert(dm.push(line@) + spec_dirs_from(content@, e + 1) =~= dm + (seq![line@]
                    + spec_dirs_from(content@, e + 1)));
            }
        }
        i = e + 1;
    }
    proof {
        assert(spec_dirs_from(content@, i as int) =~= Seq::<Seq<char>>::empty());
        assert(spec_includes_from(content@, i as int) =~= Seq::<Seq<char>>::empty());
        assert(dirs@.map_values(|s: String| s@) + Seq::<Seq<char>>::empty() =~= dirs@.map_values(
            |s: String| s@,
        ));
        assert(includes@.map_values(|s: String| s@) + Seq::<Seq<char>>::empty()
            =~= includes@.map_values(|s: String| s@));
    }
    (dirs, includes)
}

impl LibraryConfig {
    /// The directory list.
    pub closed spec fn dirs(&self) -> Seq<String> {
        self.directories@
    }

    /// The model of the directory list.
    pub open spec fn dirs_model(&self) -> Seq<Seq<char>> {
        self.dirs().map_values(|s: String| s@)
    }

    /// The default configuration: the standard system directories.
    pub fn standard() -> (r: LibraryConfig)
        ensures
            r.dirs_model() == spec_default_dirs(),
    {
        let mut directories: Vec<String> = Vec::new();
        directories.push(String::from_str("/lib"));
        directories.push(String::from_str("/usr/lib"));
        directories.push(String::from_str("/lib64"));
        directories.push(String::from_str("/usr/lib64"));
        proof {
            assert(directories@.map_values(|s: String| s@) =~= spec_default_dirs());
        }
        LibraryConfig { directories }
    }

    /// A configuration over an explicit directory list.
    pub fn from_directories(directories: Vec<String>) -> (r: LibraryConfig)
        ensures
            r.dirs() == directories@,
    {
        LibraryConfig { directories }
    }

    /// The directories to scan, in order.
    pub fn directories(&self) -> (r: &Vec<String>)
        ensures
            r@ == self.dirs(),
    {
        &self.directories
    }

}

impl core::default::Default for LibraryConfig {
    /// The default configuration: the standard system directories.
    fn default() -> (r: LibraryConfig)
        ensures
            r.dirs_model() == spec_default_dirs(),
    {
        LibraryConfig::standard()
    }
}

/// Parse configuration text into a configuration holding the default
/// directories followed by the listed ones. Include directives are
/// recognized but not expanded — expansion reads the filesystem and is
/// the caller's part, via [`parse_config_content`].
pub fn parse_config_content_compat(content: &str) -> (r: Result<LibraryConfig, crate::Error>)
    requires
        content@.len() < usize::MAX,
    ensures
        r matches Ok(c) && c.dirs_model() == spec_default_dirs() + spec_dirs_from(content@, 0),
{
    let mut cfg = LibraryConfig::standard();
    let (dirs, _includes) = parse_config_content(content);
    let ghost base = cfg.directories@.map_values(|s: String| s@);
    let mut i: usize = 0;
    while i < dirs.len()
        invariant
            0 <= i <= dirs@.len(),
            cfg.directories@.map_values(|s: String| s@) == base + dirs@.map_values(
                |s: String| s@,
            ).take(i as int),
        decreases dirs@.len() - i,
    {
        let ghost cur = cfg.directories@.map_values(|s: String| s@);
        cfg.directories.push(dirs[i].clone());
        proof {
            let dm = dirs@.map_values(|s: String| s@);
            assert(cfg.directories@.map_values(|s: String| s@) =~= cur.push(dm[i as int]));
            assert(cur.push(dm[i as int]) =~= base + dm.take(i + 1));
        }
        i = i + 1;
    }
    proof {
        let dm = dirs@.map_values(|s: String| s@);
        assert(dm.take(dirs@.len() as int) =~= dm);
    }
    Ok(cfg)
}

/// The directories a configuration holds, as a fresh list. Include
/// patterns are not expanded here: that reads the filesystem and is the
/// caller's part.
pub fn expand_includes_compat(config: &LibraryConfig) -> (r: Result<Vec<String>, crate::Error>)
    ensures
        r matches Ok(dirs) && dirs@ == config.dirs(),
{
    let src = config.directories();
    let mut out: Vec<String> = Vec::new();
    let mut i: usize = 0;
    while i < src.len()
        invariant
            0 <= i <= src@.len(),
            src@ == config.dirs(),
            out@ == config.dirs().take(i as int),
        decreases src@.len() - i,
    {
        out.push(src[i].clone());
        proof {
            assert(out@ =~= config.dirs().take(i + 1));
        }
        i = i + 1;
    }
    proof {
        assert(config.dirs().take(src@.len() as int) =~= config.dirs());
    }
    Ok(out)
}

} // verus!
