//! Character-level operations on path and name strings: file name and
//! parent extraction, prefix/suffix/substring tests, and joining. Paths are
//! plain strings; a separator is the `/` character.

use vstd::prelude::*;
use vstd::string::StrSliceExecFns;
use vstd::string::StringExecFns;

verus! {

/// Index of the last `/` in `p`, or -1 when there is none.
pub open spec fn last_sep(p: Seq<char>) -> int
    decreases p.len(),
{
    if p.len() == 0 {
        -1
    } else if p[p.len() - 1] == '/' {
        p.len() - 1
    } else {
        last_sep(p.drop_last())
    }
}

/// A separator position with no separator after it is the last one.
pub proof fn lemma_last_sep_exact(p: Seq<char>, j: int)
    requires
        0 <= j < p.len(),
        p[j] == '/',
        forall|t: int| j < t < p.len() ==> p[t] != '/',
    ensures
        last_sep(p) == j,
    decreases p.len(),
{
    if j < p.len() - 1 {
        lemma_last_sep_exact(p.drop_last(), j);
        assert(forall|t: int| 0 <= t < p.len() - 1 ==> p.drop_last()[t] == p[t]);
    }
}

/// A string without separators has no last-separator index.
pub proof fn lemma_last_sep_none(p: Seq<char>)
    requires
        forall|t: int| 0 <= t < p.len() ==> p[t] != '/',
    ensures
        last_sep(p) == -1,
    decreases p.len(),
{
    if p.len() > 0 {
        lemma_last_sep_none(p.drop_last());
        assert(forall|t: int| 0 <= t < p.len() - 1 ==> p.drop_last()[t] == p[t]);
    }
}

/// The last-separator index is in range, holds a separator when present,
/// and nothing after it is one.
pub proof fn lemma_last_sep_props(p: Seq<char>)
    ensures
        -1 <= last_sep(p) < p.len(),
        last_sep(p) >= 0 ==> p[last_sep(p)] == '/',
        forall|t: int| last_sep(p) < t < p.len() ==> p[t] != '/',
    decreases p.len(),
{
    if p.len() > 0 && p[p.len() - 1] != '/' {
        lemma_last_sep_props(p.drop_last());
        assert(forall|t: int| 0 <= t < p.len() - 1 ==> p.drop_last()[t] == p[t]);
    }
}

/// The bare file name of a path: everything after the last separator.
pub open spec fn file_name_chars(p: Seq<char>) -> Seq<char> {
    p.subrange(last_sep(p) + 1, p.len() as int)
}

/// The file name of a joined path is the joined name, as long as the
/// name holds no separator.
pub proof fn lemma_file_name_join(dir: Seq<char>, name: Seq<char>)
    requires
        forall|t: int| 0 <= t < name.len() ==> name[t] != '/',
    ensures
        file_name_chars(join_chars(dir, name)) == name,
{
    let p = join_chars(dir, name);
    if dir.len() == 0 {
        lemma_last_sep_none(name);
        assert(file_name_chars(p) =~= name);
    } else if dir[dir.len() - 1] == '/' {
        assert(p[dir.len() - 1] == '/');
        assert forall|t: int| dir.len() - 1 < t < p.len() implies p[t] != '/' by {
            assert(p[t] == name[t - dir.len()]);
        }
        lemma_last_sep_exact(p, dir.len() - 1);
        assert(file_name_chars(p) =~= name);
    } else {
        assert(p[dir.len() as int] == '/');
        assert forall|t: int| dir.len() < t < p.len() implies p[t] != '/' by {
            assert(p[t] == name[t - dir.len() - 1]);
        }
        lemma_last_sep_exact(p, dir.len() as int);
        assert(file_name_chars(p) =~= name);
    }
}

/// The parent of a path: everything before the last separator, keeping a
/// lone leading separator, and empty for a separator-free path.
pub open spec fn parent_dir_chars(p: Seq<char>) -> Seq<char> {
    if last_sep(p) <= 0 {
        p.subrange(0, last_sep(p) + 1)
    } else {
        p.subrange(0, last_sep(p))
    }
}

/// `dir` and `name` joined with a separator, unless `dir` is empty or
/// already ends with one.
pub open spec fn join_chars(dir: Seq<char>, name: Seq<char>) -> Seq<char> {
    if dir.len() == 0 {
        name
    } else if dir[dir.len() - 1] == '/' {
        dir + name
    } else {
        dir + seq!['/'] + name
    }
}

/// Whether `s` starts with `pre`.
pub open spec fn starts_with_chars(s: Seq<char>, pre: Seq<char>) -> bool {
    s.len() >= pre.len() && s.subrange(0, pre.len() as int) == pre
}

/// Whether `s` ends with `suf`.
pub open spec fn ends_with_chars(s: Seq<char>, suf: Seq<char>) -> bool {
    s.len() >= suf.len() && s.subrange(s.len() - suf.len(), s.len() as int) == suf
}

/// Whether `n` occurs somewhere inside `h`.
pub open spec fn contains_chars(h: Seq<char>, n: Seq<char>) -> bool {
    exists|k: int| 0 <= k <= h.len() - n.len() && #[trigger] h.subrange(k, k + n.len()) == n
}

/// The bare file name of a path string.
pub fn file_name<'a>(p: &'a str) -> (r: &'a str)
    ensures
        r@ == file_name_chars(p@),
{
    let len = p.unicode_len();
    let mut k: usize = len;
    while k > 0 && p.get_char(k - 1) != '/'
        invariant
            0 <= k <= len,
            len == p@.len(),
            forall|t: int| k <= t < len ==> p@[t] != '/',
        decreases k,
    {
        k = k - 1;
    }
    proof {
        if k == 0 {
            lemma_last_sep_none(p@);
        } else {
            lemma_last_sep_exact(p@, k - 1);
        }
    }
    p.substring_char(k, len)
}

/// The parent of a path string.
pub fn parent_dir<'a>(p: &'a str) -> (r: &'a str)
    ensures
        r@ == parent_dir_chars(p@),
{
    let len = p.unicode_len();
    let mut k: usize = len;
    while k > 0 && p.get_char(k - 1) != '/'
        invariant
            0 <= k <= len,
            len == p@.len(),
            forall|t: int| k <= t < len ==> p@[t] != '/',
        decreases k,
    {
        k = k - 1;
    }
    proof {
        if k == 0 {
            lemma_last_sep_none(p@);
        } else {
            lemma_last_sep_exact(p@, k - 1);
        }
    }
    if k <= 1 {
        p.substring_char(0, k)
    } else {
        p.substring_char(0, k - 1)
    }
}

/// Whether two strings hold the same characters.
pub fn str_eq(a: &str, b: &str) -> (r: bool)
    ensures
        r == (a@ == b@),
{
    let al = a.unicode_len();
    let bl = b.unicode_len();
    if al != bl {
        return false;
    }
    let mut i: usize = 0;
    while i < al
        invariant
            0 <= i <= al,
            al == a@.len(),
            al == b@.len(),
            forall|t: int| 0 <= t < i ==> a@[t] == b@[t],
        decreases al - i,
    {
        if a.get_char(i) != b.get_char(i) {
            return false;
        }
        i = i + 1;
    }
    proof {
        assert(a@ =~= b@);
    }
    true
}

/// Whether `s` starts with `pre`.
pub fn starts_with(s: &str, pre: &str) -> (r: bool)
    ensures
        r == starts_with_chars(s@, pre@),
{
    let sl = s.unicode_len();
    let pl = pre.unicode_len();
    if sl < pl {
        return false;
    }
    let mut i: usize = 0;
    while i < pl
        invariant
            0 <= i <= pl,
            pl == pre@.len(),
            sl == s@.len(),
            pl <= sl,
            forall|t: int| 0 <= t < i ==> s@[t] == pre@[t],
        decreases pl - i,
    {
        if s.get_char(i) != pre.get_char(i) {
            proof {
                assert(s@.subrange(0, pre@.len() as int)[i as int] != pre@[i as int]);
            }
            return false;
        }
        i = i + 1;
    }
    proof {
        assert(s@.subrange(0, pre@.len() as int) =~= pre@);
    }
    true
}

/// Whether `s` ends with `suf`.
pub fn ends_with(s: &str, suf: &str) -> (r: bool)
    ensures
        r == ends_with_chars(s@, suf@),
{
    let sl = s.unicode_len();
    let fl = suf.unicode_len();
    if sl < fl {
        return false;
    }
    let off = sl - fl;
    let mut i: usize = 0;
    while i < fl
        invariant
            0 <= i <= fl,
            fl == suf@.len(),
            sl == s@.len(),
            off == sl - fl,
            forall|t: int| 0 <= t < i ==> s@[off + t] == suf@[t],
        decreases fl - i,
    {
        if s.get_char(off + i) != suf.get_char(i) {
            proof {
                assert(s@.subrange(s@.len() - suf@.len(), s@.len() as int)[i as int]
                    != suf@[i as int]);
            }
            return false;
        }
        i = i + 1;
    }
    proof {
        assert(s@.subrange(s@.len() - suf@.len(), s@.len() as int) =~= suf@);
    }
    true
}

/// Whether `n` occurs somewhere inside `h`.
pub fn contains_str(h: &str, n: &str) -> (r: bool)
    ensures
        r == contains_chars(h@, n@),
{
    let hl = h.unicode_len();
    let nl = n.unicode_len();
    if nl > hl {
        return false;
    }
    let mut k: usize = 0;
    while k <= hl - nl
        invariant
            0 <= k <= hl - nl + 1,
            nl <= hl,
            hl == h@.len(),
            nl == n@.len(),
            forall|t: int| 0 <= t < k ==> #[trigger] h@.subrange(t, t + n@.len()) != n@,
        decreases hl - nl + 1 - k,
    {
        let mut i: usize = 0;
        let mut all_eq = true;
        while i < nl
            invariant
                0 <= i <= nl,
                0 <= k <= hl - nl,
                nl <= hl,
                hl == h@.len(),
                nl == n@.len(),
                all_eq == (forall|t: int| 0 <= t < i ==> h@[k + t] == n@[t]),
            decreases nl - i,
        {
            if h.get_char(k + i) != n.get_char(i) {
                all_eq = false;
                proof {
                    assert(!(forall|t: int| 0 <= t < i + 1 ==> h@[k as int + t] == n@[t]));
                }
                i = nl;
            } else {
                proof {
                    if all_eq {
                        assert(forall|t: int| 0 <= t < i + 1 ==> h@[k as int + t] == n@[t]);
                    }
                }
                i = i + 1;
            }
        }
        if all_eq {
            proof {
                assert(h@.subrange(k as int, k + n@.len()) =~= n@);
            }
            return true;
        }
        proof {
            if h@.subrange(k as int, k + n@.len()) == n@ {
                assert(forall|t: int|
                    0 <= t < nl ==> h@.subrange(k as int, k + n@.len())[t] == n@[t]);
                assert(forall|t: int| 0 <= t < nl ==> h@[k + t] == n@[t]);
            }
        }
        k = k + 1;
    }
    proof {
        assert forall|t: int| 0 <= t <= h@.len() - n@.len() implies #[trigger] h@.subrange(
            t,
            t + n@.len(),
        ) != n@ by {}
    }
    false
}

/// Join a directory and a file name with a separator.
pub fn join_path(dir: &str, name: &str) -> (r: String)
    ensures
        r@ == join_chars(dir@, name@),
{
    let dl = dir.unicode_len();
    if dl == 0 {
        return String::from_str(name);
    }
    let mut out = String::from_str(dir);
    if dir.get_char(dl - 1) != '/' {
        out.append("/");
        proof {
            reveal_strlit("/");
        }
    }
    out.append(name);
    out
}

} // verus!
