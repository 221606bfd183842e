//! The digit-run-aware comparator used to rank shared-library file names by
//! version, compatible with the loader's conventional ordering: maximal runs
//! of decimal digits compare by numeric value, other characters by code
//! point, and a name that is a strict prefix of the other ranks lower.

use vstd::prelude::*;
use vstd::string::StrSliceExecFns;
use core::cmp::Ordering;

verus! {

/// A decimal digit character.
pub open spec fn is_digit(c: char) -> bool {
    48 <= c as u32 && c as u32 <= 57
}

/// Length of the maximal run of digits at the front of `s` starting at `i`.
pub open spec fn digit_run_len(s: Seq<char>, i: int) -> nat
    decreases s.len() - i when 0 <= i <= s.len()
{
    if i < s.len() && is_digit(s[i]) {
        1 + digit_run_len(s, i + 1)
    } else {
        0
    }
}

/// Numeric value of the digits `s[i..j]`, read in base ten.
pub open spec fn digit_run_val(s: Seq<char>, i: int, j: int) -> nat
    decreases j - i when i <= j
{
    if i >= j {
        0
    } else {
        digit_run_val(s, i, j - 1) * 10 + (s[j - 1] as u32 - 48) as nat
    }
}

pub proof fn lemma_digit_run_len_bounds(s: Seq<char>, i: int)
    requires
        0 <= i <= s.len(),
    ensures
        digit_run_len(s, i) <= s.len() - i,
        i < s.len() && is_digit(s[i]) ==> digit_run_len(s, i) >= 1,
    decreases s.len() - i,
{
    if i < s.len() && is_digit(s[i]) {
        lemma_digit_run_len_bounds(s, i + 1);
    }
}

/// The comparator, reading both names from positions `i` and `j` onward.
pub open spec fn spec_version_cmp_from(a: Seq<char>, b: Seq<char>, i: int, j: int) -> Ordering
    decreases (a.len() - i) + (b.len() - j) when 0 <= i <= a.len() && 0 <= j <= b.len()
        via version_cmp_from_decreases
{
    if i >= a.len() && j >= b.len() {
        Ordering::Equal
    } else if i >= a.len() {
        Ordering::Less
    } else if j >= b.len() {
        Ordering::Greater
    } else if is_digit(a[i]) && is_digit(b[j]) {
        let la = digit_run_len(a, i) as int;
        let lb = digit_run_len(b, j) as int;
        let va = digit_run_val(a, i, i + la);
        let vb = digit_run_val(b, j, j + lb);
        if va < vb {
            Ordering::Less
        } else if va > vb {
            Ordering::Greater
        } else {
            spec_version_cmp_from(a, b, i + la, j + lb)
        }
    } else if a[i] != b[j] {
        if (a[i] as u32) < (b[j] as u32) {
            Ordering::Less
        } else {
            Ordering::Greater
        }
    } else {
        spec_version_cmp_from(a, b, i + 1, j + 1)
    }
}

#[via_fn]
proof fn version_cmp_from_decreases(a: Seq<char>, b: Seq<char>, i: int, j: int) {
    if 0 <= i < a.len() && 0 <= j < b.len() {
        lemma_digit_run_len_bounds(a, i);
        lemma_digit_run_len_bounds(b, j);
    }
}

/// How the comparator ranks the names `a` and `b`: `Greater` means `a`
/// names the higher version.
pub open spec fn spec_version_cmp(a: Seq<char>, b: Seq<char>) -> Ordering {
    spec_version_cmp_from(a, b, 0, 0)
}

/// Ten to the `n`th power.
pub open spec fn pow10(n: nat) -> nat
    decreases n,
{
    if n == 0 {
        1
    } else {
        10 * pow10((n - 1) as nat)
    }
}

proof fn lemma_pow10_pos(n: nat)
    ensures
        pow10(n) >= 1,
    decreases n,
{
    if n > 0 {
        lemma_pow10_pos((n - 1) as nat);
    }
}

proof fn lemma_pow10_increases(m: nat, n: nat)
    requires
        m <= n,
    ensures
        pow10(m) <= pow10(n),
    decreases n,
{
    if m < n {
        lemma_pow10_increases(m, (n - 1) as nat);
        lemma_pow10_pos((n - 1) as nat);
    }
}

/// A digit run's value is below ten to its length.
proof fn lemma_digit_run_val_upper(s: Seq<char>, i: int, j: int)
    requires
        0 <= i <= j <= s.len(),
        forall|k: int| i <= k < j ==> is_digit(#[trigger] s[k]),
    ensures
        digit_run_val(s, i, j) < pow10((j - i) as nat),
    decreases j - i,
{
    if i < j {
        lemma_digit_run_val_upper(s, i, j - 1);
        let v = digit_run_val(s, i, j - 1);
        let p = pow10((j - 1 - i) as nat);
        assert(v <= p - 1);
        assert(v * 10 <= (p - 1) * 10) by (nonlinear_arith)
            requires v <= p - 1,
        {}
    }
}

/// A digit run that does not start with a zero has a value at least ten to
/// one less than its length.
proof fn lemma_digit_run_val_lower(s: Seq<char>, i: int, j: int)
    requires
        0 <= i < j <= s.len(),
        forall|k: int| i <= k < j ==> is_digit(#[trigger] s[k]),
        s[i] as u32 != 48,
    ensures
        digit_run_val(s, i, j) >= pow10((j - i - 1) as nat),
    decreases j - i,
{
    if i == j - 1 {
        assert(digit_run_val(s, i, j) == digit_run_val(s, i, i) * 10 + (s[i] as u32 - 48));
    } else {
        lemma_digit_run_val_lower(s, i, j - 1);
        let v = digit_run_val(s, i, j - 1);
        let p = pow10((j - 1 - i - 1) as nat);
        assert(v * 10 >= p * 10) by (nonlinear_arith)
            requires v >= p,
        {}
    }
}

/// A leading zero does not change a run's value.
proof fn lemma_digit_run_val_strip_zero(s: Seq<char>, i: int, j: int)
    requires
        0 <= i < j <= s.len(),
        s[i] as u32 == 48,
    ensures
        digit_run_val(s, i, j) == digit_run_val(s, i + 1, j),
    decreases j - i,
{
    if i + 1 < j {
        lemma_digit_run_val_strip_zero(s, i, j - 1);
        assert(digit_run_val(s, i, j) == digit_run_val(s, i, j - 1) * 10 + (s[j - 1] as u32
            - 48) as nat);
        assert(digit_run_val(s, i + 1, j) == digit_run_val(s, i + 1, j - 1) * 10 + (s[j - 1] as u32
            - 48) as nat);
    } else {
        assert(digit_run_val(s, i, j) == digit_run_val(s, i, i) * 10 + (s[i] as u32 - 48) as nat);
        assert(digit_run_val(s, i, i) == 0);
        assert((s[i] as u32 - 48) as nat == 0);
    }
}

/// A run's value splits at any interior position `m`.
proof fn lemma_digit_run_val_split(s: Seq<char>, i: int, m: int, j: int)
    requires
        0 <= i <= m <= j <= s.len(),
    ensures
        digit_run_val(s, i, j) == digit_run_val(s, i, m) * pow10((j - m) as nat) + digit_run_val(
            s,
            m,
            j,
        ),
    decreases j - m,
{
    if m == j {
        assert(pow10(0) == 1);
        assert(digit_run_val(s, m, j) == 0);
        assert(digit_run_val(s, i, m) * 1 == digit_run_val(s, i, m));
    } else {
        lemma_digit_run_val_split(s, i, m, j - 1);
        let hi = digit_run_val(s, i, m);
        let p = pow10((j - 1 - m) as nat);
        let d = (s[j - 1] as u32 - 48) as nat;
        assert(pow10((j - m) as nat) == 10 * p);
        assert(digit_run_val(s, i, j) == digit_run_val(s, i, j - 1) * 10 + d);
        assert(digit_run_val(s, m, j) == digit_run_val(s, m, j - 1) * 10 + d);
        assert(digit_run_val(s, i, j - 1) == hi * p + digit_run_val(s, m, j - 1));
        let lo = digit_run_val(s, m, j - 1);
        assert((hi * p + lo) * 10 == hi * (10 * p) + lo * 10) by (nonlinear_arith);
        assert(digit_run_val(s, i, j) == hi * (10 * p) + lo * 10 + d);
        assert(digit_run_val(s, i, j) == digit_run_val(s, i, m) * pow10((j - m) as nat)
            + digit_run_val(s, m, j));
    }
}

/// Two runs of the same length compare by their first differing digit.
proof fn lemma_digit_run_lex(a: Seq<char>, i: int, b: Seq<char>, j: int, len: int, k: int)
    requires
        0 <= i,
        i + len <= a.len(),
        0 <= j,
        j + len <= b.len(),
        0 <= k < len,
        forall|t: int| 0 <= t < k ==> #[trigger] a[i + t] == b[j + t],
        (a[i + k] as u32) < (b[j + k] as u32),
        forall|t: int| i <= t < i + len ==> is_digit(#[trigger] a[t]),
        forall|t: int| j <= t < j + len ==> is_digit(#[trigger] b[t]),
    ensures
        digit_run_val(a, i, i + len) < digit_run_val(b, j, j + len),
{
    let rest = (len - k - 1) as nat;
    lemma_digit_run_val_split(a, i, i + k + 1, i + len);
    lemma_digit_run_val_split(b, j, j + k + 1, j + len);
    let ha = digit_run_val(a, i, i + k + 1);
    let hb = digit_run_val(b, j, j + k + 1);
    assert(digit_run_val(a, i, i + k) == digit_run_val(b, j, j + k)) by {
        lemma_digit_run_val_prefix_eq(a, i, b, j, k);
    }
    assert(ha < hb);
    lemma_digit_run_val_upper(a, i + k + 1, i + len);
    lemma_digit_run_val_upper(b, j + k + 1, j + len);
    let p = pow10(rest);
    let ra = digit_run_val(a, i + k + 1, i + len);
    let rb = digit_run_val(b, j + k + 1, j + len);
    assert(ha * p + ra < hb * p + rb) by (nonlinear_arith)
        requires ha < hb, ra < p, 0 <= ra, 0 <= rb,
    {}
}

/// Runs with pairwise-equal digits have equal values.
proof fn lemma_digit_run_val_prefix_eq(a: Seq<char>, i: int, b: Seq<char>, j: int, len: int)
    requires
        0 <= i,
        i + len <= a.len(),
        0 <= j,
        j + len <= b.len(),
        0 <= len,
        forall|t: int| 0 <= t < len ==> #[trigger] a[i + t] == b[j + t],
    ensures
        digit_run_val(a, i, i + len) == digit_run_val(b, j, j + len),
    decreases len,
{
    if len > 0 {
        lemma_digit_run_val_prefix_eq(a, i, b, j, len - 1);
        assert(a[i + (len - 1)] == b[j + (len - 1)]);
    }
}

/// Zero-stripping a run keeps its value.
proof fn lemma_strip_zeros(s: Seq<char>, i: int, z: int, j: int)
    requires
        0 <= i <= j <= s.len(),
        i <= z <= j,
        forall|k: int| i <= k < z ==> #[trigger] s[k] as u32 == 48,
    ensures
        digit_run_val(s, i, j) == digit_run_val(s, z, j),
    decreases z - i,
{
    if i < z {
        lemma_digit_run_val_strip_zero(s, i, j);
        lemma_strip_zeros(s, i + 1, z, j);
    }
}

/// Digit runs concatenate: counting digits from `i` passes through `k` as
/// long as everything before `k` is a digit.
proof fn lemma_digit_run_len_additive(s: Seq<char>, i: int, k: int)
    requires
        0 <= i <= k <= s.len(),
        forall|t: int| i <= t < k ==> is_digit(#[trigger] s[t]),
    ensures
        digit_run_len(s, i) == (k - i) + digit_run_len(s, k),
    decreases k - i,
{
    if i < k {
        lemma_digit_run_len_additive(s, i + 1, k);
    }
}

/// Every character inside a maximal digit run is a digit.
proof fn lemma_digit_run_chars(s: Seq<char>, i: int)
    requires
        0 <= i <= s.len(),
    ensures
        forall|t: int| i <= t < i + digit_run_len(s, i) ==> is_digit(#[trigger] s[t]),
    decreases s.len() - i,
{
    if i < s.len() && is_digit(s[i]) {
        lemma_digit_run_chars(s, i + 1);
        lemma_digit_run_len_bounds(s, i + 1);
    }
}

/// Whether `c` is a decimal digit.
fn char_is_digit(c: char) -> (r: bool)
    ensures
        r == is_digit(c),
{
    let u = c as u32;
    48 <= u && u <= 57
}

/// A shorter zero-stripped run has the smaller value.
proof fn lemma_shorter_run_smaller(a: Seq<char>, i: int, la: int, b: Seq<char>, j: int, lb: int)
    requires
        0 <= i,
        i + la <= a.len(),
        0 <= j,
        j + lb <= b.len(),
        0 <= la < lb,
        forall|t: int| i <= t < i + la ==> is_digit(#[trigger] a[t]),
        forall|t: int| j <= t < j + lb ==> is_digit(#[trigger] b[t]),
        b[j] as u32 != 48,
    ensures
        digit_run_val(a, i, i + la) < digit_run_val(b, j, j + lb),
{
    lemma_digit_run_val_upper(a, i, i + la);
    lemma_digit_run_val_lower(b, j, j + lb);
    lemma_pow10_increases(la as nat, (lb - 1) as nat);
}

/// The comparator is reflexive: a name compared with itself, from the
/// same position, is `Equal`.
pub proof fn lemma_version_cmp_refl(a: Seq<char>, i: int)
    requires
        0 <= i <= a.len(),
    ensures
        spec_version_cmp_from(a, a, i, i) == Ordering::Equal,
    decreases a.len() - i,
{
    if i < a.len() {
        if is_digit(a[i]) {
            lemma_digit_run_len_bounds(a, i);
            let la = digit_run_len(a, i) as int;
            lemma_version_cmp_refl(a, i + la);
        } else {
            lemma_version_cmp_refl(a, i + 1);
        }
    }
}

/// The comparator flips with its arguments.
pub proof fn lemma_version_cmp_flip(a: Seq<char>, b: Seq<char>, i: int, j: int)
    requires
        0 <= i <= a.len(),
        0 <= j <= b.len(),
    ensures
        spec_version_cmp_from(a, b, i, j) == Ordering::Less <==> spec_version_cmp_from(b, a, j, i)
            == Ordering::Greater,
        spec_version_cmp_from(a, b, i, j) == Ordering::Equal <==> spec_version_cmp_from(b, a, j, i)
            == Ordering::Equal,
    decreases (a.len() - i) + (b.len() - j),
{
    if i < a.len() && j < b.len() {
        let ai = a[i];
        let bj = b[j];
        if is_digit(ai) && is_digit(bj) {
            lemma_digit_run_len_bounds(a, i);
            lemma_digit_run_len_bounds(b, j);
            let la = digit_run_len(a, i) as int;
            let lb = digit_run_len(b, j) as int;
            if digit_run_val(a, i, i + la) == digit_run_val(b, j, j + lb) {
                lemma_version_cmp_flip(a, b, i + la, j + lb);
            }
        } else if ai == bj {
            lemma_version_cmp_flip(a, b, i + 1, j + 1);
        } else {
            if ai as u32 == bj as u32 {
                vstd::utf8::char_u32_cast(ai, ai as u32);
                vstd::utf8::char_u32_cast(bj, bj as u32);
                assert(false);
            }
        }
    }
}

/// The comparator's at-or-before relation is transitive: whatever ranks
/// at or below `b` ranks at or below whatever `b` ranks at or below.
pub proof fn lemma_version_cmp_le_trans(
    a: Seq<char>,
    b: Seq<char>,
    c: Seq<char>,
    i: int,
    j: int,
    k: int,
)
    requires
        0 <= i <= a.len(),
        0 <= j <= b.len(),
        0 <= k <= c.len(),
        spec_version_cmp_from(a, b, i, j) != Ordering::Greater,
        spec_version_cmp_from(b, c, j, k) != Ordering::Greater,
    ensures
        spec_version_cmp_from(a, c, i, k) != Ordering::Greater,
    decreases (a.len() - i) + (b.len() - j) + (c.len() - k),
{
    if i >= a.len() {
        // `a` is exhausted: the comparison with `c` is Equal or Less.
    } else {
        assert(j < b.len());
        assert(k < c.len());
        let ai = a[i];
        let bj = b[j];
        let ck = c[k];
        let ad = is_digit(ai);
        let bd = is_digit(bj);
        let cd = is_digit(ck);
        lemma_digit_run_len_bounds(a, i);
        lemma_digit_run_len_bounds(b, j);
        lemma_digit_run_len_bounds(c, k);
        if ad && bd && cd {
            let la = digit_run_len(a, i) as int;
            let lb = digit_run_len(b, j) as int;
            let lc = digit_run_len(c, k) as int;
            let va = digit_run_val(a, i, i + la);
            let vb = digit_run_val(b, j, j + lb);
            let vc = digit_run_val(c, k, k + lc);
            assert(va <= vb);
            assert(vb <= vc);
            if va == vb && vb == vc {
                lemma_version_cmp_le_trans(a, b, c, i + la, j + lb, k + lc);
            } else {
                assert(va < vc);
            }
        } else if ad && bd && !cd {
            // Run values decide nothing here: `b[j]` against the
            // non-digit `c[k]` forces `c[k]` above every digit.
            assert(bj != ck);
            assert((bj as u32) < (ck as u32));
            assert((ck as u32) > 57);
            assert(ai != ck);
            assert((ai as u32) < (ck as u32));
        } else if ad && !bd {
            assert(ai != bj);
            assert((ai as u32) < (bj as u32));
            assert((bj as u32) > 57);
            if cd {
                assert(bj != ck);
                assert((bj as u32) < (ck as u32));
                assert((ck as u32) <= 57);
                assert(false);
            } else {
                assert((bj as u32) <= (ck as u32));
                assert(ai != ck);
                assert((ai as u32) < (ck as u32));
            }
        } else if !ad && bd {
            assert(ai != bj);
            assert((ai as u32) < (bj as u32));
            assert((ai as u32) < 48);
            if cd {
                assert(ai != ck);
                assert((ai as u32) < (ck as u32));
            } else {
                assert(bj != ck);
                assert((bj as u32) < (ck as u32));
                assert((ck as u32) > 57);
                assert(ai != ck);
                assert((ai as u32) < (ck as u32));
            }
        } else {
            // Both `a[i]` and `b[j]` are non-digits.
            if cd {
                assert(bj != ck);
                assert((bj as u32) < (ck as u32));
                assert((bj as u32) < 48);
                assert((ai as u32) <= (bj as u32));
                assert(ai != ck);
                assert((ai as u32) < (ck as u32));
            } else {
                if ai == bj && bj == ck {
                    lemma_version_cmp_le_trans(a, b, c, i + 1, j + 1, k + 1);
                } else {
                    assert((ai as u32) <= (bj as u32));
                    assert((bj as u32) <= (ck as u32));
                    assert((ai as u32) < (ck as u32)) by {
                        if ai == bj {
                            assert(bj != ck);
                        }
                        if bj == ck {
                            assert(ai != bj);
                        }
                    }
                    if ai == ck {
                        vstd::utf8::char_u32_cast(ai, ai as u32);
                        vstd::utf8::char_u32_cast(ck, ck as u32);
                        assert(false);
                    }
                }
            }
        }
    }
}

/// First index at or after `start`, up to `len`, whose character is not a
/// decimal digit.
fn digit_run_end(s: &str, start: usize, len: usize) -> (r: usize)
    requires
        len == s@.len(),
        start <= len,
    ensures
        r == start + digit_run_len(s@, start as int),
        start <= r <= len,
{
    let mut k: usize = start;
    while k < len && char_is_digit(s.get_char(k))
        invariant
            start <= k <= len,
            len == s@.len(),
            forall|t: int| start <= t < k ==> is_digit(#[trigger] s@[t]),
        decreases len - k,
    {
        k = k + 1;
    }
    proof {
        lemma_digit_run_len_additive(s@, start as int, k as int);
    }
    k
}

/// First index at or after `i`, below `r`, whose character is not `'0'`.
fn skip_zeros(s: &str, i: usize, r: usize) -> (z: usize)
    requires
        i <= r <= s@.len(),
    ensures
        i <= z <= r,
        forall|t: int| i <= t < z ==> #[trigger] s@[t] as u32 == 48,
        z < r ==> s@[z as int] as u32 != 48,
{
    let mut z: usize = i;
    while z < r && s.get_char(z) as u32 == 48
        invariant
            i <= z <= r,
            r <= s@.len(),
            forall|t: int| i <= t < z ==> #[trigger] s@[t] as u32 == 48,
        decreases r - z,
    {
        z = z + 1;
    }
    z
}

/// Compare the digit runs `a[i..ra]` and `b[j..rb]` by numeric value,
/// stripping leading zeros and then comparing lengths and digits, which
/// ranks runs exactly as their (unbounded) numeric values do.
fn cmp_digit_runs(a: &str, i: usize, ra: usize, b: &str, j: usize, rb: usize) -> (r: Ordering)
    requires
        i <= ra <= a@.len(),
        j <= rb <= b@.len(),
        forall|t: int| i <= t < ra ==> is_digit(#[trigger] a@[t]),
        forall|t: int| j <= t < rb ==> is_digit(#[trigger] b@[t]),
    ensures
        r == Ordering::Less <==> digit_run_val(a@, i as int, ra as int) < digit_run_val(
            b@,
            j as int,
            rb as int,
        ),
        r == Ordering::Greater <==> digit_run_val(a@, i as int, ra as int) > digit_run_val(
            b@,
            j as int,
            rb as int,
        ),
        r == Ordering::Equal <==> digit_run_val(a@, i as int, ra as int) == digit_run_val(
            b@,
            j as int,
            rb as int,
        ),
{
    let za = skip_zeros(a, i, ra);
    let zb = skip_zeros(b, j, rb);
    proof {
        lemma_strip_zeros(a@, i as int, za as int, ra as int);
        lemma_strip_zeros(b@, j as int, zb as int, rb as int);
    }
    let ea = ra - za;
    let eb = rb - zb;
    if ea < eb {
        proof {
            lemma_shorter_run_smaller(a@, za as int, ea as int, b@, zb as int, eb as int);
        }
        return Ordering::Less;
    }
    if eb < ea {
        proof {
            lemma_shorter_run_smaller(b@, zb as int, eb as int, a@, za as int, ea as int);
        }
        return Ordering::Greater;
    }
    let mut k: usize = 0;
    while k < ea
        invariant
            0 <= k <= ea,
            ea == ra - za,
            ea == rb - zb,
            i <= za <= ra <= a@.len(),
            j <= zb <= rb <= b@.len(),
            forall|t: int| i <= t < ra ==> is_digit(#[trigger] a@[t]),
            forall|t: int| j <= t < rb ==> is_digit(#[trigger] b@[t]),
            forall|t: int| 0 <= t < k ==> #[trigger] a@[za + t] == b@[zb + t],
            digit_run_val(a@, i as int, ra as int) == digit_run_val(a@, za as int, ra as int),
            digit_run_val(b@, j as int, rb as int) == digit_run_val(b@, zb as int, rb as int),
        decreases ea - k,
    {
        let ac = a.get_char(za + k);
        let bc = b.get_char(zb + k);
        if (ac as u32) < (bc as u32) {
            proof {
                lemma_digit_run_lex(a@, za as int, b@, zb as int, ea as int, k as int);
            }
            return Ordering::Less;
        }
        if (bc as u32) < (ac as u32) {
            proof {
                lemma_digit_run_lex(b@, zb as int, a@, za as int, ea as int, k as int);
            }
            return Ordering::Greater;
        }
        proof {
            vstd::utf8::char_u32_cast(ac, ac as u32);
            vstd::utf8::char_u32_cast(bc, bc as u32);
            assert(ac == bc);
        }
        k = k + 1;
    }
    proof {
        lemma_digit_run_val_prefix_eq(a@, za as int, b@, zb as int, ea as int);
    }
    Ordering::Equal
}

/// Compare two library file names by the loader's versioning convention:
/// maximal decimal digit runs compare numerically, other characters by code
/// point, and exhausting one name first ranks it lower. `Greater` means the
/// first argument names the higher version.
pub fn compare_library_versions(a: &str, b: &str) -> (r: Ordering)
    ensures
        r == spec_version_cmp(a@, b@),
{
    let a_len: usize = a.unicode_len();
    let b_len: usize = b.unicode_len();
    let mut i: usize = 0;
    let mut j: usize = 0;
    loop
        invariant
            i <= a_len,
            j <= b_len,
            a_len == a@.len(),
            b_len == b@.len(),
            spec_version_cmp(a@, b@) == spec_version_cmp_from(a@, b@, i as int, j as int),
        decreases (a_len - i) + (b_len - j),
    {
        if i >= a_len && j >= b_len {
            return Ordering::Equal;
        }
        if i >= a_len {
            return Ordering::Less;
        }
        if j >= b_len {
            return Ordering::Greater;
        }
        let ac = a.get_char(i);
        let bc = b.get_char(j);
        let au = ac as u32;
        let bu = bc as u32;
        if 48 <= au && au <= 57 && 48 <= bu && bu <= 57 {
            let ra = digit_run_end(a, i, a_len);
            let rb = digit_run_end(b, j, b_len);
            proof {
                lemma_digit_run_len_bounds(a@, i as int);
                lemma_digit_run_len_bounds(b@, j as int);
                lemma_digit_run_chars(a@, i as int);
                lemma_digit_run_chars(b@, j as int);
            }
            let c = cmp_digit_runs(a, i, ra, b, j, rb);
            match c {
                Ordering::Equal => {
                    i = ra;
                    j = rb;
                },
                _ => {
                    return c;
                },
            }
        } else if ac != bc {
            if au < bu {
                return Ordering::Less;
            } else {
                return Ordering::Greater;
            }
        } else {
            i = i + 1;
            j = j + 1;
        }
    }
}

} // verus!
